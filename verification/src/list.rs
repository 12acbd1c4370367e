use vstd::prelude::*;

use crate::id::{id_after, Id};
use crate::counts::{rc_strong_count, StrongCount};
use crate::RefCount;

use std::rc::{Rc, Weak};

verus! {

/// A handle on a node of a [`List`]: the arena slot that holds the node and
/// the node's identity.
///
/// A handle stays meaningful for as long as its node is allocated, whether
/// the node is linked into the list or not. A popped node stays allocated
/// while a [`Handle`] on it is kept; otherwise it is freed, and a handle on
/// a freed node names nothing.
#[derive(Debug, Clone, Copy)]
pub struct NodeRef {
    pub slot: usize,
    pub id: Id,
}

/// What [`List::push_front`] hands out: the node's [`NodeRef`] and a
/// reference-counted pointer of the node's own, so that the node's counts
/// (see [`List::to_ref_counts`]) include every handle kept.
#[derive(Debug, Clone)]
pub struct Handle {
    pub key: NodeRef,
    pub token: Rc<()>,
}

impl View for Handle {
    type V = NodeRef;

    open spec fn view(&self) -> NodeRef {
        self.key
    }
}

/// A weak pointer from a node to the token of the node before it, as a
/// backward link holds one. `std::rc::Weak` has an allocator parameter that
/// Verus cannot declare, so the pointer is kept behind this opaque type; the
/// list only ever writes and drops it.
#[verifier::external_body]
struct BackLink(Weak<()>);

/// Calls `Rc::downgrade`: a new weak pointer to the allocation of `r`.
/// Nothing is claimed of it.
#[verifier::external_body]
fn back_link_to(r: &Rc<()>) -> BackLink {
    BackLink(Rc::downgrade(r))
}

/// A node of a [`List`].
#[derive(Debug, Default)]
pub struct Node<T> {
    id: Id,
    pub data: T,
    prev: Option<usize>,
    next: Option<usize>,
    /// The node's share of reference counting: the list holds this one
    /// pointer, and every [`Handle`] on the node holds another.
    token: Rc<()>,
}

impl<T> Node<T> {
    fn new(id: Id, data: T) -> (node: Node<T>)
        ensures
            node.id == id,
            node.data == data,
            node.prev is None,
            node.next is None,
    {
        Node { id, data, prev: None, next: None, token: Rc::new(()) }
    }
}

/// What a [`List`] holds, as its contracts see it.
pub struct ListModel<T> {
    /// The handles of the linked nodes, from head to tail.
    pub refs: Seq<NodeRef>,
    /// The data of every allocated node: the linked ones, and the unlinked
    /// ones that a kept [`Handle`] or the cache in this crate holds on to
    /// (see [`List::pop_front`] and [`List::detach_front`]).
    pub store: Map<NodeRef, T>,
    /// The list holds nodes but its tail pointer is unset. This happens
    /// when a node that is not linked is moved to the front of an empty
    /// list; until the list is emptied again `pop_back` finds no tail.
    pub tail_lost: bool,
    /// The counter from which the next node takes its identity.
    pub next_id: usize,
    /// The counter has wrapped around the end of `usize`; from then on the
    /// identities of allocated nodes may repeat.
    pub id_wrapped: bool,
}

/// While the identity counter has not wrapped, every allocated node's
/// identity is below the counter and no two allocated nodes share one.
pub open spec fn ids_fresh<T>(store: Map<NodeRef, T>, next_id: usize, id_wrapped: bool) -> bool {
    !id_wrapped ==> {
        &&& forall|r: NodeRef| #[trigger] store.contains_key(r) ==> r.id.0 < next_id
        &&& forall|r1: NodeRef, r2: NodeRef|
            #[trigger] store.contains_key(r1) && #[trigger] store.contains_key(r2) && r1.id == r2.id
                ==> r1 == r2
    }
}

impl<T> ListModel<T> {
    /// The model of a list that has never held a node.
    pub open spec fn empty() -> ListModel<T> {
        ListModel {
            refs: Seq::empty(),
            store: Map::empty(),
            tail_lost: false,
            next_id: 0,
            id_wrapped: false,
        }
    }

    pub open spec fn wf(self) -> bool {
        &&& self.refs.no_duplicates()
        &&& forall|k: int| 0 <= k < self.refs.len() ==> self.store.contains_key(#[trigger] self.refs[k])
        &&& self.tail_lost ==> self.refs.len() > 0
        &&& ids_fresh(self.store, self.next_id, self.id_wrapped)
    }

    /// The data of the linked nodes, from head to tail.
    pub open spec fn values(self) -> Seq<T> {
        self.refs.map_values(|r: NodeRef| self.store[r])
    }

    pub open spec fn is_linked(self, r: NodeRef) -> bool {
        self.refs.contains(r)
    }

    /// Some allocated node has the identity `id`.
    pub open spec fn has_id(self, id: Id) -> bool {
        exists|r: NodeRef| #[trigger] self.store.contains_key(r) && r.id == id
    }

    /// `r`, holding `data`, becomes the first node.
    pub open spec fn push_front(self, r: NodeRef, data: T) -> ListModel<T> {
        ListModel {
            refs: seq![r] + self.refs,
            store: self.store.insert(r, data),
            tail_lost: self.tail_lost,
            next_id: id_after(self.next_id),
            id_wrapped: self.id_wrapped || self.next_id == usize::MAX,
        }
    }

    /// The first node is unlinked and freed.
    pub open spec fn pop_front(self) -> ListModel<T> {
        if self.refs.len() == 0 {
            self
        } else {
            ListModel {
                refs: self.refs.drop_first(),
                store: self.store.remove(self.refs[0]),
                tail_lost: self.tail_lost && self.refs.len() > 1,
                ..self
            }
        }
    }

    /// The first node is unlinked; it stays allocated.
    pub open spec fn detach_front(self) -> ListModel<T> {
        if self.refs.len() == 0 {
            self
        } else {
            ListModel {
                refs: self.refs.drop_first(),
                tail_lost: self.tail_lost && self.refs.len() > 1,
                ..self
            }
        }
    }

    /// `pop_back` finds a tail to unlink.
    pub open spec fn has_tail(self) -> bool {
        self.refs.len() > 0 && !self.tail_lost
    }

    /// The last node is unlinked, if the tail is known; it stays allocated.
    pub open spec fn detach_back(self) -> ListModel<T> {
        if self.has_tail() {
            ListModel { refs: self.refs.drop_last(), ..self }
        } else {
            self
        }
    }

    /// The last node is unlinked and freed, if the tail is known.
    pub open spec fn pop_back(self) -> ListModel<T> {
        if self.has_tail() {
            ListModel {
                refs: self.refs.drop_last(),
                store: self.store.remove(self.refs.last()),
                ..self
            }
        } else {
            self
        }
    }

    /// The allocated node `r` becomes the first node: a linked node is taken
    /// out of its place, an unlinked one is linked in again.
    pub open spec fn move_to_front(self, r: NodeRef) -> ListModel<T> {
        if !self.store.contains_key(r) {
            self
        } else if self.refs.len() > 0 && self.refs[0] == r {
            self
        } else if self.is_linked(r) {
            ListModel { refs: seq![r] + self.refs.remove(self.refs.index_of(r)), ..self }
        } else {
            ListModel {
                refs: seq![r] + self.refs,
                tail_lost: self.tail_lost || self.refs.len() == 0,
                ..self
            }
        }
    }

    /// The data of the allocated node `r` is replaced.
    pub open spec fn set(self, r: NodeRef, data: T) -> ListModel<T> {
        if self.store.contains_key(r) {
            ListModel { store: self.store.insert(r, data), ..self }
        } else {
            self
        }
    }
}

/// Pushing a new node `r` in front puts its data in front of the values.
pub proof fn lemma_values_push_front<T>(m: ListModel<T>, r: NodeRef, data: T)
    requires
        m.wf(),
        !m.store.contains_key(r),
        r.id == Id(m.next_id),
    ensures
        m.push_front(r, data).wf(),
        m.push_front(r, data).values() == seq![data] + m.values(),
        !m.id_wrapped ==> !m.has_id(r.id),
{
    let m2 = m.push_front(r, data);
    assert(!m.refs.contains(r));
    if !m2.id_wrapped {
        assert forall|q: NodeRef| #[trigger] m2.store.contains_key(q) implies q.id.0 < m2.next_id by {
            if q != r {
                assert(m.store.contains_key(q));
            }
        }
        assert forall|q1: NodeRef, q2: NodeRef|
            #[trigger] m2.store.contains_key(q1) && #[trigger] m2.store.contains_key(q2) && q1.id
                == q2.id implies q1 == q2 by {
            if q1 != r {
                assert(m.store.contains_key(q1));
            }
            if q2 != r {
                assert(m.store.contains_key(q2));
            }
        }
    }
    if !m.id_wrapped && m.has_id(r.id) {
        let q = choose|q: NodeRef| #[trigger] m.store.contains_key(q) && q.id == r.id;
        assert(q.id.0 < m.next_id);
    }
    assert forall|k: int| 0 <= k < m2.refs.len() implies m2.store.contains_key(#[trigger] m2.refs[k]) by {
        if k > 0 {
            assert(m2.refs[k] == m.refs[k - 1]);
        }
    }
    assert(m2.refs.no_duplicates()) by {
        assert forall|x: int, y: int|
            0 <= x < m2.refs.len() && 0 <= y < m2.refs.len() && x != y implies m2.refs[x]
            != m2.refs[y] by {
            if x > 0 && y > 0 {
                assert(m2.refs[x] == m.refs[x - 1]);
                assert(m2.refs[y] == m.refs[y - 1]);
            } else if x == 0 {
                assert(m.refs.contains(m2.refs[y]));
            } else {
                assert(m.refs.contains(m2.refs[x]));
            }
        }
    }
    assert forall|k: int| 0 <= k < m2.values().len() implies #[trigger] m2.values()[k] == (seq![data]
        + m.values())[k] by {
        if k > 0 {
            assert(m2.refs[k] == m.refs[k - 1]);
            assert(m.refs[k - 1] != r);
        }
    }
    assert(m2.values() =~= seq![data] + m.values());
}

/// Moving the linked node at position `i` to the front moves its data to
/// the front of the values; the other values keep their order.
pub proof fn lemma_values_move_linked<T>(m: ListModel<T>, i: int)
    requires
        m.wf(),
        0 <= i < m.refs.len(),
    ensures
        m.refs.index_of(m.refs[i]) == i,
        m.move_to_front(m.refs[i]).wf(),
        m.move_to_front(m.refs[i]).values() == seq![m.values()[i]] + m.values().remove(i),
        m.move_to_front(m.refs[i]).refs == seq![m.refs[i]] + m.refs.remove(i),
        m.move_to_front(m.refs[i]).store == m.store,
        m.move_to_front(m.refs[i]).tail_lost == m.tail_lost,
{
    let r = m.refs[i];
    let j = m.refs.index_of(r);
    assert(m.refs.contains(r));
    assert(j == i);
    let m2 = m.move_to_front(r);
    if i == 0 {
        assert(m.refs =~= seq![r] + m.refs.remove(0));
        assert(m.values() =~= seq![m.values()[0]] + m.values().remove(0));
    } else {
        let refs2 = seq![r] + m.refs.remove(i);
        assert(m2.refs == refs2);
        assert forall|k: int| 0 <= k < refs2.len() implies #[trigger] refs2[k] == (if k == 0 {
            m.refs[i]
        } else if k - 1 < i {
            m.refs[k - 1]
        } else {
            m.refs[k]
        }) by {}
        assert(refs2.no_duplicates()) by {
            assert forall|x: int, y: int|
                0 <= x < refs2.len() && 0 <= y < refs2.len() && x != y implies refs2[x]
                != refs2[y] by {
                let jx = if x == 0 { i } else if x - 1 < i { x - 1 } else { x };
                let jy = if y == 0 { i } else if y - 1 < i { y - 1 } else { y };
                assert(refs2[x] == m.refs[jx]);
                assert(refs2[y] == m.refs[jy]);
            }
        }
        assert forall|k: int| 0 <= k < refs2.len() implies m2.store.contains_key(#[trigger] refs2[k]) by {}
        assert(m2.values() =~= seq![m.values()[i]] + m.values().remove(i));
    }
}

/// Moving an allocated node that is not linked to the front puts its data
/// in front of the values.
pub proof fn lemma_values_move_unlinked<T>(m: ListModel<T>, r: NodeRef)
    requires
        m.wf(),
        m.store.contains_key(r),
        !m.refs.contains(r),
    ensures
        m.move_to_front(r).wf(),
        m.move_to_front(r).values() == seq![m.store[r]] + m.values(),
        m.move_to_front(r).refs == seq![r] + m.refs,
        m.move_to_front(r).store == m.store,
        m.move_to_front(r).tail_lost == (m.tail_lost || m.refs.len() == 0),
{
    let m2 = m.move_to_front(r);
    if m.refs.len() > 0 {
        assert(m.refs[0] != r) by {
            assert(m.refs.contains(m.refs[0]));
        }
    }
    assert(m2.refs == seq![r] + m.refs);
    assert(m2.refs.no_duplicates()) by {
        assert forall|x: int, y: int|
            0 <= x < m2.refs.len() && 0 <= y < m2.refs.len() && x != y implies m2.refs[x]
            != m2.refs[y] by {
            if x > 0 && y > 0 {
                assert(m2.refs[x] == m.refs[x - 1]);
                assert(m2.refs[y] == m.refs[y - 1]);
            } else if x == 0 {
                assert(m.refs.contains(m2.refs[y]));
            } else {
                assert(m.refs.contains(m2.refs[x]));
            }
        }
    }
    assert forall|k: int| 0 <= k < m2.refs.len() implies m2.store.contains_key(#[trigger] m2.refs[k]) by {
        if k > 0 {
            assert(m2.refs[k] == m.refs[k - 1]);
        }
    }
    assert(m2.values() =~= seq![m.store[r]] + m.values());
}

/// Moving an allocated node to the front links it and leaves every other
/// node linked or not as it was.
pub proof fn lemma_move_to_front_members<T>(m: ListModel<T>, r: NodeRef)
    requires
        m.wf(),
        m.store.contains_key(r),
    ensures
        forall|q: NodeRef|
            #[trigger] m.move_to_front(r).refs.contains(q) <==> (m.refs.contains(q) || q == r),
{
    let m2 = m.move_to_front(r);
    if m.is_linked(r) {
        let i = m.refs.index_of(r);
        lemma_values_move_linked(m, i);
        assert forall|q: NodeRef| #[trigger] m2.refs.contains(q) <==> (m.refs.contains(q) || q == r) by {
            if m2.refs.contains(q) {
                let x = choose|x: int| 0 <= x < m2.refs.len() && m2.refs[x] == q;
                if x > 0 {
                    let j = if x - 1 < i { x - 1 } else { x };
                    assert(m.refs[j] == q);
                }
            }
            if m.refs.contains(q) && q != r {
                let y = choose|y: int| 0 <= y < m.refs.len() && m.refs[y] == q;
                let x = if y < i { y + 1 } else { y };
                assert(m2.refs[x] == q);
            }
            assert(m2.refs[0] == r);
        }
    } else {
        lemma_values_move_unlinked(m, r);
        assert forall|q: NodeRef| #[trigger] m2.refs.contains(q) <==> (m.refs.contains(q) || q == r) by {
            if m2.refs.contains(q) {
                let x = choose|x: int| 0 <= x < m2.refs.len() && m2.refs[x] == q;
                if x > 0 {
                    assert(m.refs[x - 1] == q);
                }
            }
            if m.refs.contains(q) {
                let y = choose|y: int| 0 <= y < m.refs.len() && m.refs[y] == q;
                assert(m2.refs[y + 1] == q);
            }
            assert(m2.refs[0] == r);
        }
    }
}

/// Replacing the data of the first linked node replaces the first value.
pub proof fn lemma_values_set_first<T>(m: ListModel<T>, data: T)
    requires
        m.wf(),
        m.refs.len() > 0,
    ensures
        m.set(m.refs[0], data).wf(),
        m.set(m.refs[0], data).values() == m.values().update(0, data),
        m.set(m.refs[0], data).refs == m.refs,
{
    let r = m.refs[0];
    let m2 = m.set(r, data);
    assert forall|q: NodeRef| #[trigger] m2.store.contains_key(q) == m.store.contains_key(q) by {}
    assert forall|k: int| 0 <= k < m.refs.len() implies #[trigger] m2.values()[k] == m.values().update(
        0,
        data,
    )[k] by {
        if k > 0 {
            assert(m.refs[k] != r);
        }
    }
    assert(m2.values() =~= m.values().update(0, data));
}

/// Unlinking and freeing the first node drops the first value.
pub proof fn lemma_values_pop_front<T>(m: ListModel<T>)
    requires
        m.wf(),
    ensures
        m.pop_front().wf(),
        m.pop_front().values() == (if m.refs.len() == 0 {
            m.values()
        } else {
            m.values().drop_first()
        }),
{
    let m2 = m.pop_front();
    if m.refs.len() > 0 {
        assert forall|k: int| 0 <= k < m2.refs.len() implies m2.store.contains_key(#[trigger] m2.refs[k]) by {
            assert(m2.refs[k] == m.refs[k + 1]);
            assert(m.refs[k + 1] != m.refs[0]);
        }
        assert(m2.refs.no_duplicates()) by {
            assert forall|x: int, y: int|
                0 <= x < m2.refs.len() && 0 <= y < m2.refs.len() && x != y implies m2.refs[x]
                != m2.refs[y] by {
                assert(m2.refs[x] == m.refs[x + 1]);
                assert(m2.refs[y] == m.refs[y + 1]);
            }
        }
        assert forall|k: int| 0 <= k < m2.refs.len() implies #[trigger] m2.values()[k]
            == m.values().drop_first()[k] by {
            assert(m2.refs[k] == m.refs[k + 1]);
            assert(m.refs[k + 1] != m.refs[0]);
        }
        assert(m2.values() =~= m.values().drop_first());
    }
}

/// Unlinking the last node, which stays allocated, drops the last value.
pub proof fn lemma_values_detach_back<T>(m: ListModel<T>)
    requires
        m.wf(),
    ensures
        m.detach_back().wf(),
        m.detach_back().values() == (if m.has_tail() {
            m.values().drop_last()
        } else {
            m.values()
        }),
{
    let m2 = m.detach_back();
    if m.has_tail() {
        assert forall|k: int| 0 <= k < m2.refs.len() implies m2.store.contains_key(#[trigger] m2.refs[k]) by {
            assert(m2.refs[k] == m.refs[k]);
        }
        assert(m2.refs.no_duplicates()) by {
            assert forall|x: int, y: int|
                0 <= x < m2.refs.len() && 0 <= y < m2.refs.len() && x != y implies m2.refs[x]
                != m2.refs[y] by {
                assert(m2.refs[x] == m.refs[x]);
                assert(m2.refs[y] == m.refs[y]);
            }
        }
        assert(m2.values() =~= m.values().drop_last());
    }
}

/// Unlinking the first node, which stays allocated, drops the first value.
pub proof fn lemma_values_detach_front<T>(m: ListModel<T>)
    requires
        m.wf(),
    ensures
        m.detach_front().wf(),
        m.detach_front().values() == (if m.refs.len() == 0 {
            m.values()
        } else {
            m.values().drop_first()
        }),
{
    let m2 = m.detach_front();
    if m.refs.len() > 0 {
        assert forall|k: int| 0 <= k < m2.refs.len() implies m2.store.contains_key(#[trigger] m2.refs[k]) by {
            assert(m2.refs[k] == m.refs[k + 1]);
        }
        assert(m2.refs.no_duplicates()) by {
            assert forall|x: int, y: int|
                0 <= x < m2.refs.len() && 0 <= y < m2.refs.len() && x != y implies m2.refs[x]
                != m2.refs[y] by {
                assert(m2.refs[x] == m.refs[x + 1]);
                assert(m2.refs[y] == m.refs[y + 1]);
            }
        }
        assert(m2.values() =~= m.values().drop_first());
    }
}

/// Unlinking and freeing the last node, when the tail is known, drops the
/// last value.
pub proof fn lemma_values_pop_back<T>(m: ListModel<T>)
    requires
        m.wf(),
    ensures
        m.pop_back().wf(),
        m.pop_back().values() == (if m.has_tail() {
            m.values().drop_last()
        } else {
            m.values()
        }),
{
    let m2 = m.pop_back();
    if m.has_tail() {
        let n = m.refs.len() as int;
        assert forall|k: int| 0 <= k < m2.refs.len() implies m2.store.contains_key(#[trigger] m2.refs[k]) by {
            assert(m2.refs[k] == m.refs[k]);
            assert(m.refs[k] != m.refs[n - 1]);
        }
        assert(m2.refs.no_duplicates()) by {
            assert forall|x: int, y: int|
                0 <= x < m2.refs.len() && 0 <= y < m2.refs.len() && x != y implies m2.refs[x]
                != m2.refs[y] by {
                assert(m2.refs[x] == m.refs[x]);
                assert(m2.refs[y] == m.refs[y]);
            }
        }
        assert forall|k: int| 0 <= k < m2.refs.len() implies #[trigger] m2.values()[k]
            == m.values().drop_last()[k] by {
            assert(m2.refs[k] == m.refs[k]);
            assert(m.refs[k] != m.refs[n - 1]);
        }
        assert(m2.values() =~= m.values().drop_last());
    }
}

/// While the identity counter has not wrapped, the linked nodes have
/// pairwise distinct identities.
pub proof fn lemma_linked_ids_distinct<T>(m: ListModel<T>)
    requires
        m.wf(),
    ensures
        !m.id_wrapped ==> forall|i: int, j: int|
            0 <= i < m.refs.len() && 0 <= j < m.refs.len() && i != j ==> (#[trigger] m.refs[i]).id
                != (#[trigger] m.refs[j]).id,
{
    if !m.id_wrapped {
        assert forall|i: int, j: int|
            0 <= i < m.refs.len() && 0 <= j < m.refs.len() && i != j implies (#[trigger] m.refs[i]).id
            != (#[trigger] m.refs[j]).id by {
            assert(m.store.contains_key(m.refs[i]));
            assert(m.store.contains_key(m.refs[j]));
        }
    }
}

proof fn lemma_counts_ids_distinct<T>(m: ListModel<T>, s: Seq<(Id, T, RefCount)>)
    requires
        m.wf(),
        s.len() == m.refs.len(),
        forall|k: int| 0 <= k < s.len() ==> (#[trigger] s[k]).0 == m.refs[k].id,
    ensures
        !m.id_wrapped ==> forall|i: int, j: int|
            0 <= i < j < s.len() ==> (#[trigger] s[i]).0 != (#[trigger] s[j]).0,
{
    lemma_linked_ids_distinct(m);
    if !m.id_wrapped {
        assert forall|i: int, j: int| 0 <= i < j < s.len() implies (#[trigger] s[i]).0
            != (#[trigger] s[j]).0 by {
            assert(s[i].0 == m.refs[i].id);
            assert(s[j].0 == m.refs[j].id);
            assert(m.refs[i].id != m.refs[j].id);
        }
    }
}

/// Pushing data in front and popping the front gives the data back first
/// and leaves the linked nodes as they were.
pub proof fn law_push_then_pop_front<T>(m: ListModel<T>, r: NodeRef, data: T)
    requires
        m.wf(),
        !m.store.contains_key(r),
        r.id == Id(m.next_id),
    ensures
        m.push_front(r, data).values()[0] == data,
        m.push_front(r, data).pop_front().values() == m.values(),
        m.push_front(r, data).pop_front().refs == m.refs,
        m.push_front(r, data).pop_front().store == m.store,
        m.push_front(r, data).pop_front().tail_lost == m.tail_lost,
{
    lemma_values_push_front(m, r, data);
    lemma_values_pop_front(m.push_front(r, data));
    assert(m.store.insert(r, data).remove(r) =~= m.store);
    assert((seq![data] + m.values()).drop_first() =~= m.values());
    assert((seq![r] + m.refs).drop_first() =~= m.refs);
}

/// Moving a linked node to the front reorders the values and changes none
/// of them.
pub proof fn law_move_to_front_permutes<T>(m: ListModel<T>, r: NodeRef)
    requires
        m.wf(),
        m.is_linked(r),
    ensures
        m.move_to_front(r).values().to_multiset() == m.values().to_multiset(),
        m.move_to_front(r).values()[0] == m.store[r],
        m.move_to_front(r).refs.len() == m.refs.len(),
{
    broadcast use vstd::multiset::group_multiset_axioms;

    let i = m.refs.index_of(r);
    lemma_values_move_linked(m, i);
    let vs = m.values();
    let rest = vs.remove(i);
    assert(seq![vs[i]] + rest =~= rest.insert(0, vs[i]));
    vstd::seq_lib::to_multiset_insert(rest, 0, vs[i]);
    vstd::seq_lib::to_multiset_remove(vs, i);
    assert(vs.to_multiset().count(vs[i]) > 0) by {
        vs.to_multiset_ensures();
        assert(vs.contains(vs[i]));
    }
    assert(vs.to_multiset().remove(vs[i]).insert(vs[i]) =~= vs.to_multiset());
}

spec fn prev_link(order: Seq<NodeRef>, k: int) -> Option<usize> {
    if k == 0 {
        None
    } else {
        Some(order[k - 1].slot)
    }
}

spec fn next_link(order: Seq<NodeRef>, k: int) -> Option<usize> {
    if k + 1 == order.len() {
        None
    } else {
        Some(order[k + 1].slot)
    }
}

spec fn occupied<T>(slots: Seq<Option<Node<T>>>, s: int) -> bool {
    0 <= s < slots.len() && slots[s] is Some
}

spec fn holds<T>(slots: Seq<Option<Node<T>>>, r: NodeRef) -> bool {
    occupied(slots, r.slot as int) && slots[r.slot as int]->0.id == r.id
}

spec fn store_of<T>(slots: Seq<Option<Node<T>>>) -> Map<NodeRef, T> {
    Map::new(|r: NodeRef| holds(slots, r), |r: NodeRef| slots[r.slot as int]->0.data)
}

spec fn with_prev<T>(node: Node<T>, p: Option<usize>) -> Node<T> {
    Node { id: node.id, data: node.data, prev: p, next: node.next, token: node.token }
}

spec fn with_next<T>(node: Node<T>, n: Option<usize>) -> Node<T> {
    Node { id: node.id, data: node.data, prev: node.prev, next: n, token: node.token }
}

fn set_prev<T>(slots: &mut Vec<Option<Node<T>>>, s: usize, p: Option<usize>)
    requires
        occupied(old(slots)@, s as int),
    ensures
        final(slots)@ == old(slots)@.update(s as int, Some(with_prev(old(slots)@[s as int]->0, p))),
{
    let mut cell: Option<Node<T>> = None;
    slots.set_and_swap(s, &mut cell);
    match cell {
        Some(node) => {
            let Node { id, data, prev: _, next, token } = node;
            slots.set(s, Some(Node { id, data, prev: p, next, token }));
        },
        None => {},
    }
}

fn set_next<T>(slots: &mut Vec<Option<Node<T>>>, s: usize, n: Option<usize>)
    requires
        occupied(old(slots)@, s as int),
    ensures
        final(slots)@ == old(slots)@.update(s as int, Some(with_next(old(slots)@[s as int]->0, n))),
{
    let mut cell: Option<Node<T>> = None;
    slots.set_and_swap(s, &mut cell);
    match cell {
        Some(node) => {
            let Node { id, data, prev, next: _, token } = node;
            slots.set(s, Some(Node { id, data, prev, next: n, token }));
        },
        None => {},
    }
}

spec fn linked_slot(order: Seq<NodeRef>, s: int) -> bool {
    exists|k: int| 0 <= k < order.len() && #[trigger] order[k].slot == s
}

/// The nodes named by `order` are allocated and linked to one another in
/// that order, `head` and `tail` point at its ends (the tail pointer may be
/// unset), and every other allocated node has no links.
spec fn links_ok<T>(
    slots: Seq<Option<Node<T>>>,
    order: Seq<NodeRef>,
    head: Option<usize>,
    tail: Option<usize>,
) -> bool {
    &&& order.no_duplicates()
    &&& forall|k: int|
        #![trigger order[k]]
        0 <= k < order.len() ==> {
            &&& holds(slots, order[k])
            &&& slots[order[k].slot as int]->0.prev == prev_link(order, k)
            &&& slots[order[k].slot as int]->0.next == next_link(order, k)
        }
    &&& forall|s: int|
        #![trigger slots[s]]
        occupied(slots, s) && !linked_slot(order, s) ==> slots[s]->0.prev is None
            && slots[s]->0.next is None
    &&& head == (if order.len() == 0 {
        None
    } else {
        Some(order[0].slot)
    })
    &&& (tail is Some ==> order.len() > 0 && tail == Some(order.last().slot))
}

/// `free` lists, once each, exactly the slots that hold no node.
spec fn free_ok<T>(free: Seq<usize>, slots: Seq<Option<Node<T>>>) -> bool {
    &&& free.no_duplicates()
    &&& forall|i: int|
        #![trigger free[i]]
        0 <= i < free.len() ==> free[i] < slots.len() && slots[free[i] as int] is None
    &&& forall|s: int|
        #![trigger slots[s]]
        0 <= s < slots.len() && slots[s] is None ==> free.contains(s as usize)
}

proof fn lemma_slots_distinct<T>(
    slots: Seq<Option<Node<T>>>,
    order: Seq<NodeRef>,
    head: Option<usize>,
    tail: Option<usize>,
    i: int,
    j: int,
)
    requires
        links_ok(slots, order, head, tail),
        0 <= i < order.len(),
        0 <= j < order.len(),
        order[i].slot == order[j].slot,
    ensures
        i == j,
{
    assert(holds(slots, order[i]));
    assert(holds(slots, order[j]));
    assert(order[i] == order[j]);
}

/// Appending empty slots to the arena changes neither links nor data.
proof fn lemma_grow<T>(
    slots: Seq<Option<Node<T>>>,
    grown: Seq<Option<Node<T>>>,
    order: Seq<NodeRef>,
    head: Option<usize>,
    tail: Option<usize>,
)
    requires
        links_ok(slots, order, head, tail),
        grown.len() >= slots.len(),
        forall|t: int| 0 <= t < slots.len() ==> grown[t] == slots[t],
        forall|t: int| slots.len() <= t < grown.len() ==> grown[t] is None,
    ensures
        links_ok(grown, order, head, tail),
        store_of(grown) == store_of(slots),
{
    assert forall|k: int| 0 <= k < order.len() implies #[trigger] holds(grown, order[k]) by {
        assert(holds(slots, order[k]));
    }
    assert forall|s: int|
        #![trigger grown[s]]
        occupied(grown, s) && !linked_slot(order, s) implies grown[s]->0.prev is None
        && grown[s]->0.next is None by {
        assert(occupied(slots, s));
        assert(slots[s] == grown[s]);
    }
    assert forall|q: NodeRef| #[trigger] holds(grown, q) == holds(slots, q) by {}
    assert(store_of(grown) =~= store_of(slots));
}

/// The arena after `node` is put into slot `s` in front of the node at
/// `head`.
spec fn pushed_slots<T>(
    slots: Seq<Option<Node<T>>>,
    head: Option<usize>,
    s: usize,
    node: Node<T>,
) -> Seq<Option<Node<T>>> {
    let relinked = match head {
        Some(h) => slots.update(h as int, Some(with_prev(slots[h as int]->0, Some(s)))),
        None => slots,
    };
    relinked.update(s as int, Some(node))
}

/// Linking the node `node`, put into slot `s`, in front of the list. The slot
/// is either empty or holds the same node unlinked.
proof fn lemma_link_front<T>(
    slots: Seq<Option<Node<T>>>,
    order: Seq<NodeRef>,
    head: Option<usize>,
    tail: Option<usize>,
    s: usize,
    node: Node<T>,
    tail2: Option<usize>,
)
    requires
        links_ok(slots, order, head, tail),
        0 <= s < slots.len(),
        !linked_slot(order, s as int),
        slots[s as int] is None || (slots[s as int]->0.id == node.id && slots[s as int]->0.data
            == node.data),
        node.prev is None,
        node.next == head,
        tail2 is None || (head is None && tail2 == Some(s)) || (head is Some && tail2 == tail),
    ensures
        ({
            let r = NodeRef { slot: s, id: node.id };
            let slots2 = pushed_slots(slots, head, s, node);
            &&& links_ok(slots2, seq![r] + order, Some(s), tail2)
            &&& slots[s as int] is None ==> !store_of(slots).contains_key(r)
            &&& store_of(slots2) == store_of(slots).insert(r, node.data)
            &&& slots2.len() == slots.len()
            &&& forall|t: int| 0 <= t < slots.len() && slots[t] is None && t != s ==> slots2[t] is None
            &&& slots2[s as int] is Some
        }),
{
    let r = NodeRef { slot: s, id: node.id };
    let slots2 = pushed_slots(slots, head, s, node);
    let order2 = seq![r] + order;
    assert forall|k: int| 0 <= k < order.len() implies #[trigger] order[k].slot != s by {
        if order[k].slot == s {
            assert(linked_slot(order, s as int));
        }
    }
    if head is Some {
        assert(holds(slots, order[0]));
    }
    assert(!order.contains(r)) by {
        if order.contains(r) {
            let k = choose|k: int| 0 <= k < order.len() && order[k] == r;
            assert(order[k].slot != s);
        }
    }
    assert forall|k: int|
        #![trigger order2[k]]
        0 <= k < order2.len() implies {
        &&& holds(slots2, order2[k])
        &&& slots2[order2[k].slot as int]->0.prev == prev_link(order2, k)
        &&& slots2[order2[k].slot as int]->0.next == next_link(order2, k)
    } by {
        if k > 0 {
            let j = k - 1;
            assert(order2[k] == order[j]);
            assert(holds(slots, order[j]));
            assert(order[j].slot != s);
            if j != 0 {
                assert(order[j].slot != order[0].slot) by {
                    if order[j].slot == order[0].slot {
                        lemma_slots_distinct(slots, order, head, tail, j, 0);
                    }
                }
            }
        }
    }
    assert forall|t: int|
        #![trigger slots2[t]]
        occupied(slots2, t) && !linked_slot(order2, t) implies slots2[t]->0.prev is None
        && slots2[t]->0.next is None by {
        assert(t != s) by {
            assert(order2[0].slot == s);
        }
        if linked_slot(order, t) {
            let k = choose|k: int| 0 <= k < order.len() && #[trigger] order[k].slot == t;
            assert(order2[k + 1].slot == t);
        }
        if head is Some {
            assert(linked_slot(order, order[0].slot as int)) by {
                assert(order[0].slot == order[0].slot);
            }
        }
        assert(occupied(slots, t));
    }
    assert(order2.no_duplicates()) by {
        assert forall|i: int, j: int|
            0 <= i < order2.len() && 0 <= j < order2.len() && i != j implies order2[i]
            != order2[j] by {
            if i > 0 && j > 0 {
                assert(order2[i] == order[i - 1]);
                assert(order2[j] == order[j - 1]);
            } else if i == 0 {
                assert(order.contains(order2[j]));
            } else {
                assert(order.contains(order2[i]));
            }
        }
    }
    assert(links_ok(slots2, order2, Some(s), tail2));
    assert forall|q: NodeRef| #[trigger] holds(slots2, q) == (holds(slots, q) || q == r) by {}
    assert(store_of(slots2) =~= store_of(slots).insert(r, node.data));
}

spec fn with_links<T>(node: Node<T>, p: Option<usize>, n: Option<usize>) -> Node<T> {
    Node { id: node.id, data: node.data, prev: p, next: n, token: node.token }
}

/// The arena after the node at position `i > 0` of `order` is unlinked: its
/// neighbours are joined and its own links cleared.
spec fn unlinked_slots<T>(slots: Seq<Option<Node<T>>>, order: Seq<NodeRef>, i: int) -> Seq<
    Option<Node<T>>,
> {
    let b = order[i].slot as int;
    let a = order[i - 1].slot as int;
    let c = next_link(order, i);
    let s1 = slots.update(a, Some(with_next(slots[a]->0, c)));
    let s2 = match c {
        Some(cs) => s1.update(cs as int, Some(with_prev(s1[cs as int]->0, Some(order[i - 1].slot)))),
        None => s1,
    };
    s2.update(b, Some(with_links(s2[b]->0, None, None)))
}

#[verifier::rlimit(40)]
proof fn lemma_unlink<T>(
    slots: Seq<Option<Node<T>>>,
    order: Seq<NodeRef>,
    head: Option<usize>,
    tail: Option<usize>,
    i: int,
)
    requires
        links_ok(slots, order, head, tail),
        0 < i < order.len(),
    ensures
        ({
            let slots2 = unlinked_slots(slots, order, i);
            let b = order[i].slot;
            let tail2 = if tail == Some(b) {
                Some(order[i - 1].slot)
            } else {
                tail
            };
            &&& links_ok(slots2, order.remove(i), head, tail2)
            &&& store_of(slots2) == store_of(slots)
            &&& !linked_slot(order.remove(i), b as int)
            &&& slots2.len() == slots.len()
            &&& slots2[b as int] == Some(with_links(slots[b as int]->0, None, None))
            &&& forall|t: int| 0 <= t < slots.len() ==> (slots2[t] is None <==> slots[t] is None)
        }),
{
    let n = order.len();
    let slots2 = unlinked_slots(slots, order, i);
    let order2 = order.remove(i);
    let b = order[i].slot;
    let a = order[i - 1].slot;
    let c = next_link(order, i);
    let tail2 = if tail == Some(b) {
        Some(order[i - 1].slot)
    } else {
        tail
    };
    assert(holds(slots, order[i]));
    assert(holds(slots, order[i - 1]));
    assert(a != b) by {
        if a == b {
            lemma_slots_distinct(slots, order, head, tail, i - 1, i);
        }
    }
    if i + 1 < n {
        assert(holds(slots, order[i + 1]));
        assert(c == Some(order[i + 1].slot));
        assert(order[i + 1].slot != b && order[i + 1].slot != a) by {
            if order[i + 1].slot == b {
                lemma_slots_distinct(slots, order, head, tail, i + 1, i);
            }
            if order[i + 1].slot == a {
                lemma_slots_distinct(slots, order, head, tail, i + 1, i - 1);
            }
        }
    }
    // Which node each slot of the new arena holds.
    assert forall|t: int| 0 <= t < slots.len() implies (slots2[t] is None <==> slots[t] is None) && (
    slots[t] is Some ==> slots2[t]->0.id == slots[t]->0.id && slots2[t]->0.data == slots[t]->0.data)
        by {}
    assert forall|t: int|
        0 <= t < slots.len() && t != b && t != a && (c is None || t != c->0) implies slots2[t]
        == slots[t] by {}
    assert forall|q: NodeRef| #[trigger] holds(slots2, q) == holds(slots, q) by {}
    assert(store_of(slots2) =~= store_of(slots));
    assert(order2.len() == n - 1);
    assert forall|k: int| 0 <= k < order2.len() implies #[trigger] order2[k] == (if k < i {
        order[k]
    } else {
        order[k + 1]
    }) by {}
    assert forall|k: int|
        #![trigger order2[k]]
        0 <= k < order2.len() implies {
        &&& holds(slots2, order2[k])
        &&& slots2[order2[k].slot as int]->0.prev == prev_link(order2, k)
        &&& slots2[order2[k].slot as int]->0.next == next_link(order2, k)
    } by {
        let j = if k < i {
            k
        } else {
            k + 1
        };
        assert(order2[k] == order[j]);
        assert(holds(slots, order[j]));
        let t = order[j].slot;
        assert(t != b) by {
            if t == b {
                lemma_slots_distinct(slots, order, head, tail, j, i);
            }
        }
        if t == a {
            assert(j == i - 1) by {
                lemma_slots_distinct(slots, order, head, tail, j, i - 1);
            }
        }
        if c is Some && t == c->0 {
            assert(j == i + 1) by {
                lemma_slots_distinct(slots, order, head, tail, j, i + 1);
            }
        }
        if k > 0 {
            if k < i {
                assert(order2[k - 1] == order[k - 1]);
            } else if k == i {
                assert(order2[k - 1] == order[i - 1]);
            } else {
                assert(order2[k - 1] == order[k]);
            }
        }
        if k + 1 < order2.len() {
            if k + 1 < i {
                assert(order2[k + 1] == order[k + 1]);
            } else {
                assert(order2[k + 1] == order[k + 2]);
            }
        }
    }
    assert(order2.no_duplicates()) by {
        assert forall|x: int, y: int|
            0 <= x < order2.len() && 0 <= y < order2.len() && x != y implies order2[x]
            != order2[y] by {
            let jx = if x < i {
                x
            } else {
                x + 1
            };
            let jy = if y < i {
                y
            } else {
                y + 1
            };
            assert(order2[x] == order[jx]);
            assert(order2[y] == order[jy]);
        }
    }
    assert(!linked_slot(order2, b as int)) by {
        if linked_slot(order2, b as int) {
            let k = choose|k: int| 0 <= k < order2.len() && #[trigger] order2[k].slot == b;
            let j = if k < i {
                k
            } else {
                k + 1
            };
            assert(order2[k] == order[j]);
            lemma_slots_distinct(slots, order, head, tail, j, i);
        }
    }
    assert forall|t: int|
        #![trigger slots2[t]]
        occupied(slots2, t) && !linked_slot(order2, t) implies slots2[t]->0.prev is None
        && slots2[t]->0.next is None by {
        if t != b {
            assert(!linked_slot(order, t)) by {
                if linked_slot(order, t) {
                    let k = choose|k: int| 0 <= k < order.len() && #[trigger] order[k].slot == t;
                    assert(k != i);
                    let k2 = if k < i {
                        k
                    } else {
                        k - 1
                    };
                    assert(order2[k2] == order[k]);
                    assert(linked_slot(order2, t));
                }
            }
            assert(t != a) by {
                assert(order2[i - 1].slot == a);
            }
            if c is Some {
                assert(t != c->0) by {
                    assert(order2[i].slot == c->0);
                }
            }
            assert(occupied(slots, t));
        }
    }
    assert(head == (if order2.len() == 0 {
        None
    } else {
        Some(order2[0].slot)
    })) by {
        if order2.len() > 0 {
            assert(order2[0] == order[0]);
        }
    }
    assert(tail2 is Some ==> order2.len() > 0 && tail2 == Some(order2.last().slot)) by {
        if tail2 is Some {
            if tail == Some(b) {
                assert(order.last().slot == b);
                assert(i == n - 1) by {
                    lemma_slots_distinct(slots, order, head, tail, n - 1, i);
                }
                assert(order2.last() == order[i - 1]);
            } else {
                assert(order.last().slot != b);
                assert(i != n - 1);
                assert(order2.last() == order[n - 1]);
            }
        }
    }
}

/// The arena after the first node is unlinked.
spec fn popped_front_slots<T>(slots: Seq<Option<Node<T>>>, order: Seq<NodeRef>) -> Seq<
    Option<Node<T>>,
> {
    let h = order[0].slot as int;
    let s1 = slots.update(h, Some(with_next(slots[h]->0, None)));
    match next_link(order, 0) {
        Some(c) => s1.update(c as int, Some(with_prev(s1[c as int]->0, None))),
        None => s1,
    }
}

#[verifier::rlimit(30)]
proof fn lemma_pop_front<T>(
    slots: Seq<Option<Node<T>>>,
    order: Seq<NodeRef>,
    head: Option<usize>,
    tail: Option<usize>,
)
    requires
        links_ok(slots, order, head, tail),
        0 < order.len(),
    ensures
        ({
            let slots2 = popped_front_slots(slots, order);
            let tail2 = if order.len() == 1 {
                None
            } else {
                tail
            };
            &&& links_ok(slots2, order.drop_first(), next_link(order, 0), tail2)
            &&& !linked_slot(order.drop_first(), order[0].slot as int)
            &&& store_of(slots2) == store_of(slots)
            &&& slots2.len() == slots.len()
            &&& forall|t: int| 0 <= t < slots.len() ==> (slots2[t] is None <==> slots[t] is None)
        }),
{
    let n = order.len();
    let slots2 = popped_front_slots(slots, order);
    let order2 = order.drop_first();
    let h = order[0].slot;
    let c = next_link(order, 0);
    let tail2 = if n == 1 {
        None
    } else {
        tail
    };
    assert(holds(slots, order[0]));
    if n > 1 {
        assert(holds(slots, order[1]));
        assert(order[1].slot != h) by {
            if order[1].slot == h {
                lemma_slots_distinct(slots, order, head, tail, 1, 0);
            }
        }
    }
    assert forall|t: int| 0 <= t < slots.len() implies (slots2[t] is None <==> slots[t] is None) && (
    slots[t] is Some ==> slots2[t]->0.id == slots[t]->0.id && slots2[t]->0.data == slots[t]->0.data)
        by {}
    assert forall|q: NodeRef| #[trigger] holds(slots2, q) == holds(slots, q) by {}
    assert(store_of(slots2) =~= store_of(slots));
    assert forall|k: int|
        #![trigger order2[k]]
        0 <= k < order2.len() implies {
        &&& holds(slots2, order2[k])
        &&& slots2[order2[k].slot as int]->0.prev == prev_link(order2, k)
        &&& slots2[order2[k].slot as int]->0.next == next_link(order2, k)
    } by {
        assert(order2[k] == order[k + 1]);
        assert(holds(slots, order[k + 1]));
        let t = order[k + 1].slot;
        assert(t != h) by {
            if t == h {
                lemma_slots_distinct(slots, order, head, tail, k + 1, 0);
            }
        }
        if k > 0 {
            assert(t != order[1].slot) by {
                if t == order[1].slot {
                    lemma_slots_distinct(slots, order, head, tail, k + 1, 1);
                }
            }
            assert(order2[k - 1] == order[k]);
        }
        if k + 1 < order2.len() {
            assert(order2[k + 1] == order[k + 2]);
        }
    }
    assert(order2.no_duplicates()) by {
        assert forall|x: int, y: int|
            0 <= x < order2.len() && 0 <= y < order2.len() && x != y implies order2[x]
            != order2[y] by {
            assert(order2[x] == order[x + 1]);
            assert(order2[y] == order[y + 1]);
        }
    }
    assert forall|t: int|
        #![trigger slots2[t]]
        occupied(slots2, t) && !linked_slot(order2, t) implies slots2[t]->0.prev is None
        && slots2[t]->0.next is None by {
        if t != h {
            assert(!linked_slot(order, t)) by {
                if linked_slot(order, t) {
                    let k = choose|k: int| 0 <= k < order.len() && #[trigger] order[k].slot == t;
                    assert(k != 0);
                    assert(order2[k - 1] == order[k]);
                    assert(linked_slot(order2, t));
                }
            }
            if c is Some {
                assert(t != c->0) by {
                    assert(order2[0].slot == c->0);
                }
            }
            assert(occupied(slots, t));
        }
    }
    assert(next_link(order, 0) == (if order2.len() == 0 {
        None
    } else {
        Some(order2[0].slot)
    }));
    assert(tail2 is Some ==> order2.len() > 0 && tail2 == Some(order2.last().slot)) by {
        if tail2 is Some {
            assert(order2.last() == order.last());
        }
    }
}

/// The arena after the last node is unlinked.
spec fn popped_back_slots<T>(slots: Seq<Option<Node<T>>>, order: Seq<NodeRef>) -> Seq<
    Option<Node<T>>,
> {
    let n = order.len() as int;
    let t = order[n - 1].slot as int;
    let s1 = slots.update(t, Some(with_prev(slots[t]->0, None)));
    match prev_link(order, n - 1) {
        Some(p) => s1.update(p as int, Some(with_next(s1[p as int]->0, None))),
        None => s1,
    }
}

#[verifier::rlimit(30)]
proof fn lemma_pop_back<T>(
    slots: Seq<Option<Node<T>>>,
    order: Seq<NodeRef>,
    head: Option<usize>,
    tail: Option<usize>,
)
    requires
        links_ok(slots, order, head, tail),
        0 < order.len(),
    ensures
        ({
            let n = order.len() as int;
            let slots2 = popped_back_slots(slots, order);
            let head2 = if n == 1 {
                None
            } else {
                head
            };
            &&& links_ok(slots2, order.drop_last(), head2, prev_link(order, n - 1))
            &&& !linked_slot(order.drop_last(), order[n - 1].slot as int)
            &&& store_of(slots2) == store_of(slots)
            &&& slots2.len() == slots.len()
            &&& forall|t: int| 0 <= t < slots.len() ==> (slots2[t] is None <==> slots[t] is None)
        }),
{
    let n = order.len() as int;
    let slots2 = popped_back_slots(slots, order);
    let order2 = order.drop_last();
    let tl = order[n - 1].slot;
    let p = prev_link(order, n - 1);
    let head2 = if n == 1 {
        None
    } else {
        head
    };
    assert(holds(slots, order[n - 1]));
    if n > 1 {
        assert(holds(slots, order[n - 2]));
        assert(order[n - 2].slot != tl) by {
            if order[n - 2].slot == tl {
                lemma_slots_distinct(slots, order, head, tail, n - 2, n - 1);
            }
        }
    }
    assert forall|t: int| 0 <= t < slots.len() implies (slots2[t] is None <==> slots[t] is None) && (
    slots[t] is Some ==> slots2[t]->0.id == slots[t]->0.id && slots2[t]->0.data == slots[t]->0.data)
        by {}
    assert forall|q: NodeRef| #[trigger] holds(slots2, q) == holds(slots, q) by {}
    assert(store_of(slots2) =~= store_of(slots));
    assert forall|k: int|
        #![trigger order2[k]]
        0 <= k < order2.len() implies {
        &&& holds(slots2, order2[k])
        &&& slots2[order2[k].slot as int]->0.prev == prev_link(order2, k)
        &&& slots2[order2[k].slot as int]->0.next == next_link(order2, k)
    } by {
        assert(order2[k] == order[k]);
        assert(holds(slots, order[k]));
        let t = order[k].slot;
        assert(t != tl) by {
            if t == tl {
                lemma_slots_distinct(slots, order, head, tail, k, n - 1);
            }
        }
        if k < n - 2 {
            assert(t != order[n - 2].slot) by {
                if t == order[n - 2].slot {
                    lemma_slots_distinct(slots, order, head, tail, k, n - 2);
                }
            }
            assert(order2[k + 1] == order[k + 1]);
        }
        if k > 0 {
            assert(order2[k - 1] == order[k - 1]);
        }
    }
    assert forall|t: int|
        #![trigger slots2[t]]
        occupied(slots2, t) && !linked_slot(order2, t) implies slots2[t]->0.prev is None
        && slots2[t]->0.next is None by {
        if t != tl {
            assert(!linked_slot(order, t)) by {
                if linked_slot(order, t) {
                    let k = choose|k: int| 0 <= k < order.len() && #[trigger] order[k].slot == t;
                    assert(k != n - 1);
                    assert(order2[k] == order[k]);
                    assert(linked_slot(order2, t));
                }
            }
            if p is Some {
                assert(t != p->0) by {
                    assert(order2[n - 2].slot == p->0);
                }
            }
            assert(occupied(slots, t));
        }
    }
    assert(head2 == (if order2.len() == 0 {
        None
    } else {
        Some(order2[0].slot)
    })) by {
        if n > 1 {
            assert(order2[0] == order[0]);
        }
    }
}

/// Freeing the slot of an allocated node that is not linked.
proof fn lemma_free_node<T>(
    slots: Seq<Option<Node<T>>>,
    free: Seq<usize>,
    order: Seq<NodeRef>,
    head: Option<usize>,
    tail: Option<usize>,
    r: NodeRef,
)
    requires
        links_ok(slots, order, head, tail),
        free_ok(free, slots),
        holds(slots, r),
        !linked_slot(order, r.slot as int),
    ensures
        links_ok(slots.update(r.slot as int, None), order, head, tail),
        free_ok(free.push(r.slot), slots.update(r.slot as int, None)),
        store_of(slots.update(r.slot as int, None)) == store_of(slots).remove(r),
{
    let slots2 = slots.update(r.slot as int, None);
    let free2 = free.push(r.slot);
    assert forall|k: int| 0 <= k < order.len() implies #[trigger] order[k].slot != r.slot by {
        if order[k].slot == r.slot {
            assert(linked_slot(order, r.slot as int));
        }
    }
    assert forall|k: int| 0 <= k < order.len() implies #[trigger] holds(slots2, order[k]) by {
        assert(holds(slots, order[k]));
    }
    assert(links_ok(slots2, order, head, tail));
    assert(!free.contains(r.slot)) by {
        if free.contains(r.slot) {
            let i = choose|i: int| 0 <= i < free.len() && free[i] == r.slot;
            assert(slots[free[i] as int] is None);
        }
    }
    assert forall|i: int|
        #![trigger free2[i]]
        0 <= i < free2.len() implies free2[i] < slots2.len() && slots2[free2[i] as int] is None by {
        if i < free.len() {
            assert(free2[i] == free[i]);
        }
    }
    assert forall|t: int|
        #![trigger slots2[t]]
        0 <= t < slots2.len() && slots2[t] is None implies free2.contains(t as usize) by {
        if t == r.slot {
            assert(free2[free.len() as int] == r.slot);
        } else {
            assert(free.contains(t as usize));
            let i = choose|i: int| 0 <= i < free.len() && free[i] == t as usize;
            assert(free2[i] == t as usize);
        }
    }
    assert(free2.no_duplicates()) by {
        assert forall|x: int, y: int|
            0 <= x < free2.len() && 0 <= y < free2.len() && x != y implies free2[x] != free2[y] by {
            if x < free.len() && y < free.len() {
                assert(free2[x] == free[x] && free2[y] == free[y]);
            } else if x < free.len() {
                assert(free.contains(free2[x]));
            } else {
                assert(free.contains(free2[y]));
            }
        }
    }
    assert(store_of(slots2) =~= store_of(slots).remove(r));
}

proof fn lemma_ids_fresh_remove<T>(store: Map<NodeRef, T>, r: NodeRef, next_id: usize, w: bool)
    requires
        ids_fresh(store, next_id, w),
    ensures
        ids_fresh(store.remove(r), next_id, w),
{
    if !w {
        assert forall|q: NodeRef| #[trigger] store.remove(r).contains_key(q) implies q.id.0 < next_id by {
            assert(store.contains_key(q));
        }
        assert forall|q1: NodeRef, q2: NodeRef|
            #[trigger] store.remove(r).contains_key(q1) && #[trigger] store.remove(r).contains_key(q2)
                && q1.id == q2.id implies q1 == q2 by {
            assert(store.contains_key(q1) && store.contains_key(q2));
        }
    }
}

/// Changing links alone keeps the free list right.
proof fn lemma_free_ok_links<T>(
    free: Seq<usize>,
    slots: Seq<Option<Node<T>>>,
    slots2: Seq<Option<Node<T>>>,
)
    requires
        free_ok(free, slots),
        slots2.len() == slots.len(),
        forall|t: int| 0 <= t < slots.len() ==> (slots2[t] is None <==> slots[t] is None),
    ensures
        free_ok(free, slots2),
{
    assert forall|t: int|
        #![trigger slots2[t]]
        0 <= t < slots2.len() && slots2[t] is None implies free.contains(t as usize) by {
        assert(slots[t] is None);
    }
    assert forall|i: int|
        #![trigger free[i]]
        0 <= i < free.len() implies free[i] < slots2.len() && slots2[free[i] as int] is None by {
        assert(slots[free[i] as int] is None);
    }
}

fn set_links<T>(slots: &mut Vec<Option<Node<T>>>, s: usize, p: Option<usize>, n: Option<usize>)
    requires
        occupied(old(slots)@, s as int),
    ensures
        final(slots)@ == old(slots)@.update(s as int, Some(with_links(old(slots)@[s as int]->0, p, n))),
{
    let mut cell: Option<Node<T>> = None;
    slots.set_and_swap(s, &mut cell);
    match cell {
        Some(node) => {
            let Node { id, data, prev: _, next: _, token } = node;
            slots.set(s, Some(Node { id, data, prev: p, next: n, token }));
        },
        None => {},
    }
}

fn set_data<T>(slots: &mut Vec<Option<Node<T>>>, s: usize, d: T)
    requires
        occupied(old(slots)@, s as int),
    ensures
        final(slots)@ == old(slots)@.update(
            s as int,
            Some(
                Node {
                    id: old(slots)@[s as int]->0.id,
                    data: d,
                    prev: old(slots)@[s as int]->0.prev,
                    next: old(slots)@[s as int]->0.next,
                    token: old(slots)@[s as int]->0.token,
                },
            ),
        ),
{
    let mut cell: Option<Node<T>> = None;
    slots.set_and_swap(s, &mut cell);
    match cell {
        Some(node) => {
            let Node { id, data: _, prev, next, token } = node;
            slots.set(s, Some(Node { id, data: d, prev, next, token }));
        },
        None => {},
    }
}

fn node_at<T>(slots: &Vec<Option<Node<T>>>, s: usize) -> (n: &Node<T>)
    requires
        occupied(slots@, s as int),
    ensures
        *n == slots@[s as int]->0,
{
    slots[s].as_ref().unwrap()
}

/// Takes a slot that holds no node, growing the arena when none is free.
fn take_free_slot<T>(free: &mut Vec<usize>, slots: &mut Vec<Option<Node<T>>>) -> (s: usize)
    requires
        free_ok(old(free)@, old(slots)@),
    ensures
        final(slots)@.len() >= old(slots)@.len(),
        final(slots)@.len() <= old(slots)@.len() + 1,
        forall|t: int| 0 <= t < old(slots)@.len() ==> final(slots)@[t] == old(slots)@[t],
        forall|t: int| old(slots)@.len() <= t < final(slots)@.len() ==> final(slots)@[t] is None,
        s < final(slots)@.len(),
        final(slots)@.len() == old(slots)@.len() || s == old(slots)@.len(),
        final(slots)@[s as int] is None,
        forall|n: Node<T>| free_ok(final(free)@, #[trigger] final(slots)@.update(s as int, Some(n))),
{
    match free.pop() {
        Some(s) => {
            proof {
                let f = old(free)@;
                assert(f.last() == s);
                assert(free@ =~= f.drop_last());
                assert(!free@.contains(s)) by {
                    if free@.contains(s) {
                        let i = choose|i: int| 0 <= i < free@.len() && free@[i] == s;
                        assert(f[i] == f[f.len() - 1]);
                    }
                }
                assert forall|n: Node<T>| free_ok(free@, #[trigger] slots@.update(s as int, Some(n))) by {
                    let slots2 = slots@.update(s as int, Some(n));
                    assert forall|t: int|
                        #![trigger slots2[t]]
                        0 <= t < slots2.len() && slots2[t] is None implies free@.contains(t as usize) by {
                        assert(t != s as int);
                        assert(slots@.len() == slots.len());
                        assert((t as usize) != s);
                        assert(slots@[t] is None);
                        assert(f.contains(t as usize));
                        let i = choose|i: int| 0 <= i < f.len() && f[i] == t as usize;
                        assert(i != f.len() - 1);
                        assert(free@[i] == t as usize);
                    }
                    assert forall|i: int|
                        #![trigger free@[i]]
                        0 <= i < free@.len() implies free@[i] < slots2.len() && slots2[free@[i] as int] is None by {
                        assert(f[i] == free@[i]);
                        assert(free@[i] != s) by {
                            assert(free@.contains(free@[i]));
                        }
                    }
                }
            }
            s
        },
        None => {
            proof {
                assert forall|t: int| 0 <= t < slots@.len() implies slots@[t] is Some by {
                    if slots@[t] is None {
                        assert(old(free)@.contains(t as usize));
                    }
                }
            }
            slots.push(None);
            let s = slots.len() - 1;
            proof {
                assert forall|n: Node<T>| free_ok(free@, #[trigger] slots@.update(s as int, Some(n))) by {
                    let slots2 = slots@.update(s as int, Some(n));
                    assert forall|t: int|
                        #![trigger slots2[t]]
                        0 <= t < slots2.len() && slots2[t] is None implies free@.contains(t as usize) by {
                        if t < s {
                            assert(old(slots)@[t] is Some);
                        }
                    }
                }
            }
            s
        },
    }
}

/// A doubly linked list whose nodes live in an arena of slots. Nodes are
/// reached through [`NodeRef`] handles, by which a node can be moved to the
/// front in constant time. Each list numbers its nodes from its own
/// counter, so identities are unique within a list, not across lists.
pub struct List<T> {
    slots: Vec<Option<Node<T>>>,
    free: Vec<usize>,
    head: Option<usize>,
    tail: Option<usize>,
    next_id: usize,
    id_wrapped: Ghost<bool>,
    order: Ghost<Seq<NodeRef>>,
    /// For each slot, the weak pointer that the node's backward link holds.
    backs: Vec<Option<BackLink>>,
    /// The strong pointer that the tail pointer holds.
    tail_token: Option<Rc<()>>,
}

impl<T> Default for List<T> {
    fn default() -> (list: Self)
        ensures
            list.wf(),
            list.model() == ListModel::<T>::empty(),
    {
        Self::new()
    }
}

impl<T> View for List<T> {
    type V = Seq<T>;

    /// The data of the linked nodes, from head to tail.
    open spec fn view(&self) -> Seq<T> {
        self.model().values()
    }
}

impl<T> List<T> {
    /// The list's internal invariant.
    pub closed spec fn wf(&self) -> bool {
        &&& links_ok(self.slots@, self.order@, self.head, self.tail)
        &&& free_ok(self.free@, self.slots@)
        &&& ids_fresh(store_of(self.slots@), self.next_id, self.id_wrapped@)
        &&& self.backs@.len() == self.slots@.len()
    }

    pub closed spec fn model(&self) -> ListModel<T> {
        ListModel {
            refs: self.order@,
            store: store_of(self.slots@),
            tail_lost: self.order@.len() > 0 && self.tail is None,
            next_id: self.next_id,
            id_wrapped: self.id_wrapped@,
        }
    }

    pub proof fn lemma_model_wf(&self)
        requires
            self.wf(),
        ensures
            self.model().wf(),
    {
        let m = self.model();
        assert forall|k: int| 0 <= k < m.refs.len() implies m.store.contains_key(
            #[trigger] m.refs[k],
        ) by {
            assert(holds(self.slots@, self.order@[k]));
        }
    }

    pub fn new() -> (list: Self)
        ensures
            list.wf(),
            list.model() == ListModel::<T>::empty(),
    {
        let list = List {
            slots: Vec::new(),
            free: Vec::new(),
            head: None,
            tail: None,
            next_id: 0,
            id_wrapped: Ghost(false),
            order: Ghost(Seq::empty()),
            backs: Vec::new(),
            tail_token: None,
        };
        assert(store_of(list.slots@) =~= Map::<NodeRef, T>::empty());
        list
    }

    /// Puts `data` in a new node at the front of the list and returns the
    /// node's handle.
    pub fn push_front(&mut self, data: T) -> (handle: Handle)
        requires
            old(self).wf(),
        ensures
            final(self).wf(),
            handle@.id == Id(old(self).model().next_id),
            !old(self).model().store.contains_key(handle@),
            !old(self).model().id_wrapped ==> !old(self).model().has_id(handle@.id),
            final(self).model() == old(self).model().push_front(handle@, data),
            final(self)@ == seq![data] + old(self)@,
    {
        proof {
            self.lemma_model_wf();
        }
        let id = Id::next(&mut self.next_id);
        proof {
            self.id_wrapped@ = self.id_wrapped@ || old(self).next_id == usize::MAX;
        }
        let slot = take_free_slot(&mut self.free, &mut self.slots);
        proof {
            lemma_grow(old(self).slots@, self.slots@, self.order@, self.head, self.tail);
        }
        if slot == self.backs.len() {
            self.backs.push(None);
        } else {
            self.backs.set(slot, None);
        }
        let ghost mid = self.slots@;
        let old_head = self.head;
        let mut node = Node::new(id, data);
        node.next = old_head;
        proof {
            lemma_link_front(
                mid,
                self.order@,
                old_head,
                self.tail,
                slot,
                node,
                if old_head is None {
                    Some(slot)
                } else {
                    self.tail
                },
            );
        }
        let token = node.token.clone();
        match old_head {
            Some(h) => {
                assert(holds(mid, self.order@[0]));
                set_prev(&mut self.slots, h, Some(slot));
                self.backs.set(h, Some(back_link_to(&token)));
            },
            None => {
                self.tail = Some(slot);
                self.tail_token = Some(token.clone());
            },
        }
        self.slots.set(slot, Some(node));
        self.head = Some(slot);
        let r = NodeRef { slot, id };
        proof {
            self.order@ = seq![r] + self.order@;
            assert(self.slots@ == pushed_slots(mid, old_head, slot, node));
            assert(free_ok(self.free@, self.slots@)) by {
                let a = mid.update(slot as int, Some(node));
                assert(free_ok(self.free@, a));
                assert forall|i: int|
                    #![trigger self.free@[i]]
                    0 <= i < self.free@.len() implies self.free@[i] < self.slots@.len()
                    && self.slots@[self.free@[i] as int] is None by {
                    assert(a[self.free@[i] as int] is None);
                    if old_head is Some {
                        assert(holds(mid, old(self).order@[0]));
                    }
                }
                assert forall|t: int|
                    #![trigger self.slots@[t]]
                    0 <= t < self.slots@.len() && self.slots@[t] is None implies self.free@.contains(t as usize) by {
                    assert(a[t] is None);
                }
            }
        }
        proof {
            lemma_values_push_front(old(self).model(), r, data);
        }
        Handle { key: r, token }
    }


    fn holds_node(&self, r: NodeRef) -> (b: bool)
        requires
            self.wf(),
        ensures
            b == self.model().store.contains_key(r),
    {
        if r.slot < self.slots.len() {
            match &self.slots[r.slot] {
                Some(node) => node.id.0 == r.id.0,
                None => false,
            }
        } else {
            false
        }
    }

    /// The position of the allocated node `r` among the linked nodes, if it
    /// is linked.
    proof fn lemma_position(&self, r: NodeRef)
        requires
            self.wf(),
            holds(self.slots@, r),
        ensures
            linked_slot(self.order@, r.slot as int) <==> self.order@.contains(r),
            self.order@.contains(r) ==> 0 <= self.order@.index_of(r) < self.order@.len()
                && self.order@[self.order@.index_of(r)] == r
                && self.order@[self.order@.index_of(r)].slot == r.slot,
    {
        if linked_slot(self.order@, r.slot as int) {
            let k = choose|k: int|
                0 <= k < self.order@.len() && #[trigger] self.order@[k].slot == r.slot;
            assert(holds(self.slots@, self.order@[k]));
            assert(self.order@[k] == r);
        }
        if self.order@.contains(r) {
            let k = self.order@.index_of(r);
            assert(self.order@[k].slot == r.slot);
        }
    }

    /// The handles of the linked nodes, from head to tail.
    pub fn handles(&self) -> (v: Vec<Handle>)
        requires
            self.wf(),
        ensures
            v@.len() == self.model().refs.len(),
            forall|k: int| 0 <= k < v@.len() ==> (#[trigger] v@[k])@ == self.model().refs[k],
    {
        let ghost order = self.order@;
        let ghost n = order.len() as int;
        let mut xs: Vec<Handle> = Vec::new();
        let mut cur = self.head;
        while cur.is_some()
            invariant
                self.wf(),
                order == self.order@,
                n == order.len(),
                0 <= xs@.len() <= n,
                forall|k: int| 0 <= k < xs@.len() ==> (#[trigger] xs@[k])@ == order[k],
                cur == (if xs@.len() < n {
                    Some(order[xs@.len() as int].slot)
                } else {
                    None::<usize>
                }),
            decreases n - xs@.len(),
        {
            let s = cur.unwrap();
            let ghost k = xs@.len() as int;
            assert(holds(self.slots@, order[k]));
            let node = node_at(&self.slots, s);
            xs.push(Handle { key: NodeRef { slot: s, id: node.id }, token: node.token.clone() });
            cur = node.next;
        }
        xs
    }

    /// Whether the list has no linked node. The tail pointer must be set
    /// whenever a node is linked: with a head and no tail the list cannot
    /// answer.
    pub fn is_empty(&self) -> (b: bool)
        requires
            self.wf(),
            !self.model().tail_lost,
        ensures
            b == (self.model().refs.len() == 0),
    {
        match (&self.head, &self.tail) {
            (None, None) => true,
            (Some(_), Some(_)) => false,
            (None, Some(_)) => false,
            (Some(_), None) => false,
        }
    }

    /// The data of the allocated node `r`.
    pub fn get(&self, h: &Handle) -> (d: Option<&T>)
        requires
            self.wf(),
        ensures
            match d {
                Some(x) => self.model().store.contains_key(h@) && *x == self.model().store[h@],
                None => !self.model().store.contains_key(h@),
            },
    {
        let r = h.key;
        if self.holds_node(r) {
            let node = node_at(&self.slots, r.slot);
            Some(&node.data)
        } else {
            None
        }
    }

    /// Replaces the data of the allocated node `r`; the node keeps its place.
    pub fn set(&mut self, h: &Handle, data: T)
        requires
            old(self).wf(),
        ensures
            final(self).wf(),
            final(self).model() == old(self).model().set(h@, data),
    {
        let r = h.key;
        if self.holds_node(r) {
            let ghost old_slots = self.slots@;
            set_data(&mut self.slots, r.slot, data);
            proof {
                let slots2 = self.slots@;
                assert forall|t: int| 0 <= t < old_slots.len() implies (slots2[t] is None <==> old_slots[t] is None) by {}
                lemma_free_ok_links(self.free@, old_slots, slots2);
                assert forall|k: int| 0 <= k < self.order@.len() implies #[trigger] holds(slots2, self.order@[k]) by {
                    assert(holds(old_slots, self.order@[k]));
                }
                assert forall|q: NodeRef| #[trigger] holds(slots2, q) == holds(old_slots, q) by {}
                assert(store_of(slots2) =~= store_of(old_slots).insert(r, data));
                assert forall|q: NodeRef| #[trigger] store_of(slots2).contains_key(q) == store_of(
                    old_slots,
                ).contains_key(q) by {}
            }
        }
    }

    /// Takes the linked node `r`, at position `i > 0`, out of its place and
    /// clears its links.
    fn unlink(&mut self, r: NodeRef, Ghost(i): Ghost<int>)
        requires
            old(self).wf(),
            0 < i < old(self).order@.len(),
            old(self).order@[i] == r,
        ensures
            final(self).wf(),
            final(self).order@ == old(self).order@.remove(i),
            store_of(final(self).slots@) == store_of(old(self).slots@),
            final(self).head == old(self).head,
            final(self).tail is None <==> old(self).tail is None,
            final(self).next_id == old(self).next_id,
            final(self).id_wrapped == old(self).id_wrapped,
            !linked_slot(final(self).order@, r.slot as int),
            final(self).slots@[r.slot as int] == Some(
                with_links(old(self).slots@[r.slot as int]->0, None, None),
            ),
    {
        let b = r.slot;
        proof {
            lemma_unlink(self.slots@, self.order@, self.head, self.tail, i);
            assert(holds(self.slots@, self.order@[i]));
            assert(holds(self.slots@, self.order@[i - 1]));
            if i + 1 < self.order@.len() {
                assert(holds(self.slots@, self.order@[i + 1]));
            }
        }
        let ghost target = unlinked_slots(self.slots@, self.order@, i);
        let node = node_at(&self.slots, b);
        let a = node.prev.unwrap();
        let next = node.next;
        set_next(&mut self.slots, a, next);
        if let Some(c) = next {
            set_prev(&mut self.slots, c, Some(a));
            self.backs.set(c, Some(back_link_to(&node_at(&self.slots, a).token)));
        }
        if let Some(t) = self.tail {
            if t == b {
                self.tail = Some(a);
                self.tail_token = Some(node_at(&self.slots, a).token.clone());
            }
        }
        set_links(&mut self.slots, b, None, None);
        self.backs.set(b, None);
        proof {
            assert(self.slots@ =~= target);
            lemma_free_ok_links(self.free@, old(self).slots@, self.slots@);
            self.order@ = self.order@.remove(i);
        }
    }

    /// Links the allocated, unlinked node `r` in front of the list.
    fn link_front(&mut self, r: NodeRef)
        requires
            old(self).wf(),
            holds(old(self).slots@, r),
            !linked_slot(old(self).order@, r.slot as int),
        ensures
            final(self).wf(),
            final(self).order@ == seq![r] + old(self).order@,
            store_of(final(self).slots@) == store_of(old(self).slots@),
            final(self).tail == old(self).tail,
            final(self).next_id == old(self).next_id,
            final(self).id_wrapped == old(self).id_wrapped,
    {
        let b = r.slot;
        let ghost mid = self.slots@;
        let ghost mid_order = self.order@;
        let old_head = self.head;
        let ghost new_node = with_links(mid[b as int]->0, None, old_head);
        proof {
            lemma_link_front(mid, mid_order, old_head, self.tail, b, new_node, self.tail);
        }
        if let Some(h) = old_head {
            assert(holds(mid, mid_order[0]));
            set_prev(&mut self.slots, h, Some(b));
            self.backs.set(h, Some(back_link_to(&node_at(&self.slots, b).token)));
        }
        set_links(&mut self.slots, b, None, old_head);
        self.head = Some(b);
        proof {
            assert(self.slots@ =~= pushed_slots(mid, old_head, b, new_node));
            lemma_free_ok_links(self.free@, mid, self.slots@);
            assert(NodeRef { slot: b, id: new_node.id } == r);
            self.order@ = seq![r] + mid_order;
            assert(store_of(mid).insert(r, new_node.data) =~= store_of(mid));
        }
    }

    /// Moves the allocated node `r` to the front of the list: a linked node
    /// is taken out of its place, an unlinked one is linked in again. A
    /// handle of no allocated node leaves the list as it is.
    pub fn move_to_front(&mut self, h: &Handle)
        requires
            old(self).wf(),
        ensures
            final(self).wf(),
            final(self).model() == old(self).model().move_to_front(h@),
            old(self).model().is_linked(h@) ==> final(self)@ == seq![old(self).model().store[h@]]
                + old(self)@.remove(old(self).model().refs.index_of(h@)),
            old(self).model().store.contains_key(h@) && !old(self).model().is_linked(h@)
                ==> final(self)@ == seq![old(self).model().store[h@]] + old(self)@,
    {
        let r = h.key;
        proof {
            let m = self.model();
            self.lemma_model_wf();
            if m.is_linked(r) {
                lemma_values_move_linked(m, m.refs.index_of(r));
            } else if m.store.contains_key(r) {
                lemma_values_move_unlinked(m, r);
            }
        }
        if !self.holds_node(r) {
            return;
        }
        proof {
            self.lemma_position(r);
        }
        if let Some(h) = self.head {
            if h == r.slot {
                proof {
                    assert(holds(self.slots@, self.order@[0]));
                    assert(self.order@[0] == r);
                }
                return;
            }
        }
        let linked = node_at(&self.slots, r.slot).prev.is_some();
        let ghost i = self.order@.index_of(r);
        proof {
            if self.order@.contains(r) {
                assert(holds(self.slots@, self.order@[i]));
                assert(i != 0);
            } else {
                assert(occupied(self.slots@, r.slot as int));
            }
        }
        if linked {
            // `r` is linked and not first: take it out of its place.
            self.unlink(r, Ghost(i));
        }
        // `r` is now unlinked: link it in front.
        self.link_front(r);
        proof {
            if linked {
                assert(self.order@ =~= seq![r] + old(self).order@.remove(i));
            }
        }
    }

    /// Unlinks the first node, which stays allocated, and returns its handle.
    fn unlink_front(&mut self) -> (r: Option<NodeRef>)
        requires
            old(self).wf(),
        ensures
            final(self).wf(),
            final(self).model() == old(self).model().detach_front(),
            r == (if old(self).order@.len() == 0 {
                None::<NodeRef>
            } else {
                Some(old(self).order@[0])
            }),
            r is Some ==> holds(final(self).slots@, r->0) && !linked_slot(
                final(self).order@,
                r->0.slot as int,
            ),
    {
        match self.head {
            None => None,
            Some(h) => {
                proof {
                    lemma_pop_front(self.slots@, self.order@, self.head, self.tail);
                    assert(holds(self.slots@, self.order@[0]));
                    if self.order@.len() > 1 {
                        assert(holds(self.slots@, self.order@[1]));
                    }
                }
                let ghost target = popped_front_slots(self.slots@, self.order@);
                let node = node_at(&self.slots, h);
                let r = NodeRef { slot: h, id: node.id };
                let next = node.next;
                set_next(&mut self.slots, h, None);
                if let Some(c) = next {
                    set_prev(&mut self.slots, c, None);
                    self.backs.set(c, None);
                }
                self.head = next;
                if next.is_none() {
                    self.tail = None;
                    self.tail_token = None;
                }
                proof {
                    assert(self.slots@ =~= target);
                    lemma_free_ok_links(self.free@, old(self).slots@, self.slots@);
                    self.order@ = self.order@.drop_first();
                    assert(holds(self.slots@, r));
                }
                Some(r)
            },
        }
    }

    /// Unlinks the last node, if the tail pointer is set, and returns its
    /// handle; the node stays allocated.
    fn unlink_back(&mut self) -> (r: Option<NodeRef>)
        requires
            old(self).wf(),
        ensures
            final(self).wf(),
            final(self).order@ == (if old(self).model().has_tail() {
                old(self).order@.drop_last()
            } else {
                old(self).order@
            }),
            final(self).model() == (ListModel { refs: final(self).order@, ..old(self).model() }),
            r == (if old(self).model().has_tail() {
                Some(old(self).order@.last())
            } else {
                None::<NodeRef>
            }),
            r is Some ==> holds(final(self).slots@, r->0) && !linked_slot(
                final(self).order@,
                r->0.slot as int,
            ),
    {
        match self.tail {
            None => None,
            Some(t) => {
                let ghost n = self.order@.len() as int;
                proof {
                    lemma_pop_back(self.slots@, self.order@, self.head, self.tail);
                    assert(holds(self.slots@, self.order@[n - 1]));
                    if n > 1 {
                        assert(holds(self.slots@, self.order@[n - 2]));
                    }
                }
                let ghost target = popped_back_slots(self.slots@, self.order@);
                let node = node_at(&self.slots, t);
                let r = NodeRef { slot: t, id: node.id };
                let prev = node.prev;
                set_prev(&mut self.slots, t, None);
                self.backs.set(t, None);
                self.tail_token = None;
                if let Some(p) = prev {
                    set_next(&mut self.slots, p, None);
                    self.tail_token = Some(node_at(&self.slots, p).token.clone());
                }
                self.tail = prev;
                if prev.is_none() {
                    self.head = None;
                }
                proof {
                    assert(self.slots@ =~= target);
                    lemma_free_ok_links(self.free@, old(self).slots@, self.slots@);
                    self.order@ = self.order@.drop_last();
                    assert(holds(self.slots@, r));
                }
                Some(r)
            },
        }
    }

    /// Frees the allocated, unlinked node `r` and returns its data.
    fn free_node(&mut self, r: NodeRef) -> (d: T)
        requires
            old(self).wf(),
            holds(old(self).slots@, r),
            !linked_slot(old(self).order@, r.slot as int),
        ensures
            final(self).wf(),
            final(self).model() == (ListModel {
                store: old(self).model().store.remove(r),
                ..old(self).model()
            }),
            d == old(self).model().store[r],
    {
        proof {
            lemma_free_node(self.slots@, self.free@, self.order@, self.head, self.tail, r);
            lemma_ids_fresh_remove(store_of(self.slots@), r, self.next_id, self.id_wrapped@);
        }
        let mut cell: Option<Node<T>> = None;
        self.slots.set_and_swap(r.slot, &mut cell);
        self.free.push(r.slot);
        self.backs.set(r.slot, None);
        cell.unwrap().data
    }

    /// Unlinks the first node and keeps it allocated: a handle on it can
    /// link it in again. The cache uses this to take an entry out of its
    /// recency order while its index still names the entry.
    pub(crate) fn detach_front(&mut self)
        requires
            old(self).wf(),
        ensures
            final(self).wf(),
            final(self).model() == old(self).model().detach_front(),
    {
        self.unlink_front();
    }

    /// Unlinks and frees the last node and returns its data, if the tail
    /// pointer is set, whatever handles are kept on the node. The cache
    /// evicts with it: the handle that its index kept is dropped at once.
    pub(crate) fn pop_back_free(&mut self) -> (x: Option<T>)
        requires
            old(self).wf(),
        ensures
            final(self).wf(),
            final(self).model() == old(self).model().pop_back(),
            x == (if old(self).model().has_tail() {
                Some(old(self)@.last())
            } else {
                None::<T>
            }),
            final(self)@ == (if old(self).model().has_tail() {
                old(self)@.drop_last()
            } else {
                old(self)@
            }),
    {
        proof {
            self.lemma_model_wf();
            lemma_values_pop_back(self.model());
        }
        match self.unlink_back() {
            None => None,
            Some(r) => Some(self.free_node(r)),
        }
    }
}

impl<T: Clone> List<T> {
    /// Settles the allocated, unlinked node `r` after a pop, given the strong
    /// count of its token: with more than one strong pointer a handle is kept,
    /// so the node stays allocated and a clone of its data is returned;
    /// otherwise the node is freed and its data returned.
    fn keep_or_free(&mut self, r: NodeRef, strong: StrongCount) -> (d: T)
        requires
            old(self).wf(),
            holds(old(self).slots@, r),
            !linked_slot(old(self).order@, r.slot as int),
        ensures
            final(self).wf(),
            strong.count() > 1 ==> final(self).model() == old(self).model() && cloned(
                old(self).model().store[r],
                d,
            ),
            strong.count() <= 1 ==> final(self).model() == (ListModel {
                store: old(self).model().store.remove(r),
                ..old(self).model()
            }) && d == old(self).model().store[r],
    {
        if strong.value() > 1 {
            node_at(&self.slots, r.slot).data.clone()
        } else {
            self.free_node(r)
        }
    }

    /// Unlinks the first node and returns a clone of its data. The node is
    /// freed, unless a [`Handle`] on it is kept: then it stays allocated,
    /// unlinked, and `move_to_front` links it in again.
    pub fn pop_front(&mut self) -> (x: Option<T>)
        requires
            old(self).wf(),
        ensures
            final(self).wf(),
            final(self).model() == old(self).model().pop_front()
                || final(self).model() == old(self).model().detach_front(),
            old(self)@.len() == 0 ==> x is None,
            old(self)@.len() > 0 ==> x is Some && cloned(old(self)@[0], x->0),
            final(self)@ == (if old(self)@.len() == 0 {
                old(self)@
            } else {
                old(self)@.drop_first()
            }),
    {
        proof {
            self.lemma_model_wf();
            lemma_values_pop_front(self.model());
            lemma_values_detach_front(self.model());
        }
        match self.unlink_front() {
            None => None,
            Some(r) => {
                let strong = rc_strong_count(&node_at(&self.slots, r.slot).token);
                Some(self.keep_or_free(r, strong))
            },
        }
    }

    /// Unlinks the last node, if the tail pointer is set, and returns a
    /// clone of its data. The node is freed, unless a [`Handle`] on it is
    /// kept: then it stays allocated, unlinked.
    pub fn pop_back(&mut self) -> (x: Option<T>)
        requires
            old(self).wf(),
        ensures
            final(self).wf(),
            final(self).model() == old(self).model().pop_back()
                || final(self).model() == old(self).model().detach_back(),
            !old(self).model().has_tail() ==> x is None,
            old(self).model().has_tail() ==> x is Some && cloned(old(self)@.last(), x->0),
            final(self)@ == (if old(self).model().has_tail() {
                old(self)@.drop_last()
            } else {
                old(self)@
            }),
    {
        proof {
            self.lemma_model_wf();
            lemma_values_pop_back(self.model());
            lemma_values_detach_back(self.model());
        }
        match self.unlink_back() {
            None => None,
            Some(r) => {
                let strong = rc_strong_count(&node_at(&self.slots, r.slot).token);
                Some(self.keep_or_free(r, strong))
            },
        }
    }

    /// Clones of the data of the linked nodes, from head to tail.
    pub fn to_vec(&self) -> (v: Vec<T>)
        requires
            self.wf(),
        ensures
            v@.len() == self.model().refs.len(),
            forall|k: int| 0 <= k < v@.len() ==> cloned(#[trigger] self.model().values()[k], v@[k]),
    {
        let ghost order = self.order@;
        let ghost n = order.len() as int;
        let mut xs: Vec<T> = Vec::new();
        let mut cur = self.head;
        let ghost mut k: int = 0;
        while cur.is_some()
            invariant
                self.wf(),
                order == self.order@,
                n == order.len(),
                0 <= k <= n,
                xs@.len() == k,
                cur == (if k < n {
                    Some(order[k].slot)
                } else {
                    None::<usize>
                }),
                forall|j: int| 0 <= j < k ==> cloned(#[trigger] self.model().values()[j], xs@[j]),
            decreases n - k,
        {
            let s = cur.unwrap();
            assert(holds(self.slots@, order[k]));
            let node = node_at(&self.slots, s);
            let x = node.data.clone();
            xs.push(x);
            cur = node.next;
            proof {
                assert(self.model().values()[k] == node.data);
                k = k + 1;
            }
        }
        xs
    }

    /// For each linked node, from head to tail: its identity, a clone of its
    /// data, and the reference counts of the node's token. Its strong count
    /// is the list's forward link to the node, the tail pointer's when it
    /// names the node, and one for every [`Handle`] kept on the node; its
    /// weak count is the next node's backward link. What the counts are
    /// depends on the handles the rest of the program keeps, so the contract
    /// claims only that the strong count is positive.
    pub fn to_ref_counts(&self) -> (v: Vec<(Id, T, RefCount)>)
        requires
            self.wf(),
        ensures
            v@.len() == self.model().refs.len(),
            forall|k: int|
                0 <= k < v@.len() ==> {
                    &&& (#[trigger] v@[k]).0 == self.model().refs[k].id
                    &&& cloned(self.model().values()[k], v@[k].1)
                    &&& v@[k].2.strong >= 1
                },
            !self.model().id_wrapped ==> forall|i: int, j: int|
                0 <= i < j < v@.len() ==> (#[trigger] v@[i]).0 != (#[trigger] v@[j]).0,
    {
        let ghost order = self.order@;
        let ghost n = order.len() as int;
        let mut xs: Vec<(Id, T, RefCount)> = Vec::new();
        let mut cur = self.head;
        let ghost mut k: int = 0;
        while cur.is_some()
            invariant
                self.wf(),
                order == self.order@,
                n == order.len(),
                0 <= k <= n,
                xs@.len() == k,
                cur == (if k < n {
                    Some(order[k].slot)
                } else {
                    None::<usize>
                }),
                forall|j: int|
                    0 <= j < k ==> {
                        &&& (#[trigger] xs@[j]).0 == self.model().refs[j].id
                        &&& cloned(self.model().values()[j], xs@[j].1)
                        &&& xs@[j].2.strong >= 1
                    },
            decreases n - k,
        {
            let s = cur.unwrap();
            assert(holds(self.slots@, order[k]));
            let node = node_at(&self.slots, s);
            let x = node.data.clone();
            xs.push((node.id, x, RefCount::of(&node.token)));
            cur = node.next;
            proof {
                assert(self.model().values()[k] == node.data);
                k = k + 1;
            }
        }
        proof {
            self.lemma_model_wf();
            lemma_counts_ids_distinct(self.model(), xs@);
        }
        xs
    }
}


fn ids_of<T>(slots: &Vec<Option<Node<T>>>) -> (res: (Vec<Id>, Ghost<Seq<int>>))
    ensures
        res.1@.len() == res.0@.len(),
        forall|i: int|
            #![trigger res.0@[i]]
            0 <= i < res.0@.len() ==> occupied(slots@, res.1@[i]) && slots@[res.1@[i]]->0.id
                == res.0@[i],
        forall|t: int| #![trigger slots@[t]] occupied(slots@, t) ==> res.0@.contains(slots@[t]->0.id),
        forall|i: int, j: int| 0 <= i < j < res.1@.len() ==> #[trigger] res.1@[i] < #[trigger] res.1@[j],
{
    let mut ids: Vec<Id> = Vec::new();
    let ghost mut slot_of: Seq<int> = Seq::empty();
    let mut s: usize = 0;
    while s < slots.len()
        invariant
            0 <= s <= slots@.len(),
            slot_of.len() == ids@.len(),
            forall|i: int|
                #![trigger ids@[i]]
                #![trigger slot_of[i]]
                0 <= i < ids@.len() ==> 0 <= slot_of[i] < s && slots@[slot_of[i]] is Some
                    && slots@[slot_of[i]]->0.id == ids@[i],
            forall|t: int|
                #![trigger slots@[t]]
                0 <= t < s && slots@[t] is Some ==> ids@.contains(slots@[t]->0.id),
            forall|i: int, j: int| 0 <= i < j < slot_of.len() ==> #[trigger] slot_of[i] < #[trigger] slot_of[j],
        decreases slots@.len() - s,
    {
        if let Some(node) = &slots[s] {
            let ghost before = ids@;
            let ghost before_slot_of = slot_of;
            ids.push(node.id);
            proof {
                slot_of = slot_of.push(s as int);
                assert forall|i: int|
                    #![trigger ids@[i]]
                    #![trigger slot_of[i]]
                    0 <= i < ids@.len() implies 0 <= slot_of[i] < s + 1 && slots@[slot_of[i]] is Some
                    && slots@[slot_of[i]]->0.id == ids@[i] by {
                    if i < before.len() {
                        assert(ids@[i] == before[i]);
                        assert(slot_of[i] == before_slot_of[i]);
                    }
                }
                assert forall|i: int, j: int| 0 <= i < j < slot_of.len() implies #[trigger] slot_of[i]
                    < #[trigger] slot_of[j] by {
                    assert(slot_of[i] == before_slot_of[i]);
                    if j < before_slot_of.len() {
                        assert(slot_of[j] == before_slot_of[j]);
                    } else {
                        assert(before_slot_of[i] < s);
                    }
                }
                assert forall|t: int|
                    #![trigger slots@[t]]
                    0 <= t < s + 1 && slots@[t] is Some implies ids@.contains(slots@[t]->0.id) by {
                    if t < s {
                        let i = choose|i: int| 0 <= i < before.len() && before[i] == slots@[t]->0.id;
                        assert(ids@[i] == slots@[t]->0.id);
                    } else {
                        assert(ids@[before.len() as int] == slots@[t]->0.id);
                    }
                }
            }
        }
        s = s + 1;
    }
    (ids, Ghost(slot_of))
}

/// The identities of the nodes allocated in `list`, linked or not.
pub fn nodes<T>(list: &List<T>) -> (v: Vec<Id>)
    requires
        list.wf(),
    ensures
        forall|i: int| 0 <= i < v@.len() ==> list.model().has_id(#[trigger] v@[i]),
        forall|r: NodeRef| #[trigger] list.model().store.contains_key(r) ==> v@.contains(r.id),
        !list.model().id_wrapped ==> v@.no_duplicates(),
{
    let (ids, Ghost(slot_of)) = ids_of(&list.slots);
    proof {
        let slots = list.slots@;
        assert(slots.len() == list.slots.len());
        assert forall|i: int| 0 <= i < ids@.len() implies list.model().has_id(#[trigger] ids@[i]) by {
            let r = NodeRef { slot: slot_of[i] as usize, id: ids@[i] };
            assert(holds(slots, r));
            assert(list.model().store.contains_key(r));
        }
        assert forall|r: NodeRef| #[trigger] list.model().store.contains_key(r) implies ids@.contains(
            r.id,
        ) by {
            assert(holds(slots, r));
            assert(slots[r.slot as int] is Some);
        }
        if !list.model().id_wrapped {
            assert forall|i: int, j: int| 0 <= i < ids@.len() && 0 <= j < ids@.len() && i != j implies ids@[i]
                != ids@[j] by {
                let (a, b) = if i < j { (i, j) } else { (j, i) };
                assert(slot_of[a] < slot_of[b]);
                let ra = NodeRef { slot: slot_of[a] as usize, id: ids@[a] };
                let rb = NodeRef { slot: slot_of[b] as usize, id: ids@[b] };
                assert(holds(slots, ra) && holds(slots, rb));
                assert(list.model().store.contains_key(ra));
                assert(list.model().store.contains_key(rb));
            }
        }
    }
    ids
}

} // verus!
