//! Name binding: a map from names to values backed by parallel vectors
//! with unique keys, and the tiered scope model — block heaps scanned
//! innermost first, then the invocation's own heap, then the global heap —
//! for both reading a name and choosing where an assignment lands.

use vstd::prelude::*;

use crate::head::{Object, ObjV, obj_wf};

verus! {

/// A mapping from names to values, with each name bound at most once.
pub struct NameMap<V> {
    keys: Vec<String>,
    vals: Vec<V>,
}

impl<V: View> View for NameMap<V> {
    type V = Map<Seq<char>, V::V>;

    closed spec fn view(&self) -> Map<Seq<char>, V::V> {
        Map::new(
            |k: Seq<char>| exists|i: int| 0 <= i < self.keys@.len() && self.keys@[i]@ == k,
            |k: Seq<char>| self.vals@[self.idx_of(k)]@,
        )
    }
}

impl<V: View> NameMap<V> {
    /// The index at which a bound name is stored.
    closed spec fn idx_of(&self, k: Seq<char>) -> int {
        choose|i: int| 0 <= i < self.keys@.len() && self.keys@[i]@ == k
    }

    /// Internal consistency: one value per key, no key bound twice.
    pub closed spec fn wf(&self) -> bool {
        &&& self.keys@.len() == self.vals@.len()
        &&& forall|i: int, j: int|
            0 <= i < j < self.keys@.len() ==> self.keys@[i]@ != self.keys@[j]@
    }

    /// The empty mapping.
    pub fn new() -> (m: NameMap<V>)
        ensures
            m.wf(),
            m@ == Map::<Seq<char>, V::V>::empty(),
    {
        let m = NameMap { keys: Vec::new(), vals: Vec::new() };
        proof {
            assert(m@ =~= Map::<Seq<char>, V::V>::empty());
        }
        m
    }

    /// Where the name is stored, if it is bound.
    fn index_of(&self, name: &str) -> (r: Option<usize>)
        requires
            self.wf(),
        ensures
            match r {
                Some(i) => i < self.keys@.len() && self.keys@[i as int]@ == name@,
                None => forall|i: int| 0 <= i < self.keys@.len() ==> self.keys@[i]@ != name@,
            },
    {
        let mut i: usize = 0;
        while i < self.keys.len()
            invariant
                i <= self.keys@.len(),
                forall|j: int| 0 <= j < i ==> self.keys@[j]@ != name@,
            decreases self.keys@.len() - i,
        {
            if crate::text::str_eq(self.keys[i].as_str(), name) {
                return Some(i);
            }
            i = i + 1;
        }
        None
    }

    /// Whether the name is bound.
    pub fn contains(&self, name: &str) -> (r: bool)
        requires
            self.wf(),
        ensures
            r == self@.contains_key(name@),
    {
        match self.index_of(name) {
            Some(_) => true,
            None => false,
        }
    }

    /// The value bound to the name, if any.
    pub fn get(&self, name: &str) -> (r: Option<&V>)
        requires
            self.wf(),
        ensures
            match r {
                Some(v) => self@.contains_key(name@) && v@ == self@[name@],
                None => !self@.contains_key(name@),
            },
    {
        match self.index_of(name) {
            Some(i) => {
                proof {
                    let j = self.idx_of(name@);
                    assert(0 <= j < self.keys@.len() && self.keys@[j]@ == name@);
                    assert(j == i);
                }
                Some(&self.vals[i])
            },
            None => None,
        }
    }

    /// Binds the name to the value, replacing any previous binding.
    pub fn insert(&mut self, name: String, v: V)
        requires
            old(self).wf(),
        ensures
            final(self).wf(),
            final(self)@ == old(self)@.insert(name@, v@),
    {
        let r = self.index_of(&name);
        match r {
            Some(i) => {
                self.vals.set(i, v);
                proof {
                    assert forall|k: Seq<char>|
                        #[trigger] self@.contains_key(k) == old(self)@.insert(
                            name@,
                            v@,
                        ).contains_key(k) by {}
                    assert forall|k: Seq<char>| self@.contains_key(k) implies #[trigger] self@[k]
                        == old(self)@.insert(name@, v@)[k] by {
                        let j = self.idx_of(k);
                        assert(0 <= j < self.keys@.len() && self.keys@[j]@ == k);
                        let jo = old(self).idx_of(k);
                        assert(0 <= jo < old(self).keys@.len() && old(self).keys@[jo]@ == k);
                        assert(j == jo);
                        if k == name@ {
                            assert(j == i);
                        } else {
                            assert(j != i);
                        }
                    }
                    assert(self@ =~= old(self)@.insert(name@, v@));
                }
            },
            None => {
                let ghost n0 = self.keys@.len() as int;
                self.keys.push(name);
                self.vals.push(v);
                proof {
                    assert forall|k: Seq<char>|
                        #[trigger] self@.contains_key(k) == old(self)@.insert(
                            name@,
                            v@,
                        ).contains_key(k) by {
                        if k == name@ {
                            assert(self.keys@[n0]@ == k);
                        } else {
                            if self@.contains_key(k) {
                                let j = choose|j: int|
                                    0 <= j < self.keys@.len() && self.keys@[j]@ == k;
                                assert(j < n0);
                                assert(old(self).keys@[j]@ == k);
                            }
                            if old(self)@.contains_key(k) {
                                let j = old(self).idx_of(k);
                                assert(self.keys@[j]@ == k);
                            }
                        }
                    }
                    assert forall|k: Seq<char>| self@.contains_key(k) implies #[trigger] self@[k]
                        == old(self)@.insert(name@, v@)[k] by {
                        let j = self.idx_of(k);
                        assert(0 <= j < self.keys@.len() && self.keys@[j]@ == k);
                        if k == name@ {
                            assert(j == n0);
                        } else {
                            assert(j < n0);
                            let jo = old(self).idx_of(k);
                            assert(0 <= jo < old(self).keys@.len() && old(self).keys@[jo]@ == k);
                            assert(jo == j);
                        }
                    }
                    assert(self@ =~= old(self)@.insert(name@, v@));
                }
            },
        }
    }
}

impl<V: View> NameMap<V> {
    /// Removes and hands back the value bound to the name, if any.
    pub fn take_out(&mut self, name: &str) -> (r: Option<V>)
        requires
            old(self).wf(),
        ensures
            final(self).wf(),
            match r {
                Some(v) => final(self)@ == old(self)@.remove(name@) && old(
                    self,
                )@.contains_key(name@) && v@ == old(self)@[name@],
                None => !old(self)@.contains_key(name@) && final(self)@ == old(self)@,
            },
    {
        let r = self.index_of(name);
        match r {
            Some(i) => {
                proof {
                    let j = old(self).idx_of(name@);
                    assert(0 <= j < self.keys@.len() && self.keys@[j]@ == name@);
                    assert(j == i);
                }
                self.keys.swap_remove(i);
                let v = self.vals.swap_remove(i);
                proof {
                    let ks = self.keys@;
                    let ko = old(self).keys@;
                    let n = ko.len() - 1;
                    assert(ks =~= ko.update(i as int, ko[n]).drop_last());
                    assert forall|a: int, b: int| 0 <= a < b < ks.len() implies ks[a]@
                        != ks[b]@ by {
                        assert(ks[a] == if a == i {
                            ko[n]
                        } else {
                            ko[a]
                        });
                        assert(ks[b] == if b == i {
                            ko[n]
                        } else {
                            ko[b]
                        });
                    }
                    assert forall|k: Seq<char>|
                        #[trigger] self@.contains_key(k) == old(self)@.remove(
                            name@,
                        ).contains_key(k) by {
                        if k != name@ {
                            if self@.contains_key(k) {
                                let a = choose|a: int| 0 <= a < ks.len() && ks[a]@ == k;
                                if a == i {
                                    assert(ko[n]@ == k);
                                } else {
                                    assert(ko[a]@ == k);
                                }
                            }
                            if old(self)@.contains_key(k) {
                                let a = old(self).idx_of(k);
                                assert(0 <= a < ko.len() && ko[a]@ == k);
                                assert(a != i);
                                if a == n {
                                    assert(i < n);
                                    assert(ks[i as int]@ == k);
                                } else {
                                    assert(ks[a]@ == k);
                                }
                            }
                        } else {
                            if self@.contains_key(k) {
                                let a = self.idx_of(k);
                                assert(0 <= a < ks.len() && ks[a]@ == k);
                                let ao = if a == i {
                                    n
                                } else {
                                    a
                                };
                                assert(ko[ao]@ == k && ko[i as int]@ == k);
                            }
                        }
                    }
                    assert forall|k: Seq<char>| self@.contains_key(k) implies #[trigger] self@[k]
                        == old(self)@.remove(name@)[k] by {
                        let a = self.idx_of(k);
                        assert(0 <= a < ks.len() && ks[a]@ == k);
                        let ao: int = if a == i {
                            n
                        } else {
                            a
                        };
                        assert(ko[ao]@ == k);
                        let jo = old(self).idx_of(k);
                        assert(0 <= jo < ko.len() && ko[jo]@ == k);
                        assert(jo == ao);
                        assert(self.vals@[a] == old(self).vals@[ao]);
                    }
                    assert(self@ =~= old(self)@.remove(name@));
                }
                Some(v)
            },
            None => None,
        }
    }
}

/// Every value bound in a heap is well-formed.
pub open spec fn heap_wf(m: Map<Seq<char>, ObjV>) -> bool {
    forall|k: Seq<char>| #[trigger] m.contains_key(k) ==> obj_wf(m[k])
}

/// The kind of an open block: the taken branch of an `if`, or an `else`
/// branch entered after a false condition.
#[derive(PartialEq, Eq, Structural, Clone, Copy, Debug)]
pub enum BlockKind {
    Taken,
    Otherwise,
}

/// One open block: its kind and its own heap of names first assigned
/// inside it.
pub struct Frame {
    pub kind: BlockKind,
    pub heap: NameMap<Object>,
}

/// The heaps of a stack of open blocks, outermost first.
pub open spec fn heaps_of(frames: Seq<Frame>) -> Seq<Map<Seq<char>, ObjV>> {
    frames.map_values(|f: Frame| f.heap@)
}

/// All block heaps are internally consistent and hold well-formed values.
pub open spec fn frames_wf(frames: Seq<Frame>) -> bool {
    forall|i: int|
        0 <= i < frames.len() ==> (#[trigger] frames[i]).heap.wf() && heap_wf(frames[i].heap@)
}

/// Name resolution among the open blocks: the innermost block heap that
/// binds the name wins.
pub open spec fn block_resolve(blocks: Seq<Map<Seq<char>, ObjV>>, name: Seq<char>) -> Option<ObjV>
    decreases blocks.len(),
{
    if blocks.len() == 0 {
        None
    } else if blocks.last().contains_key(name) {
        Some(blocks.last()[name])
    } else {
        block_resolve(blocks.drop_last(), name)
    }
}

/// Name resolution, the read path: block heaps innermost first, then the
/// invocation's heap, then the global heap; the first binding wins; `None`
/// where the name is bound nowhere.
pub open spec fn resolve(
    blocks: Seq<Map<Seq<char>, ObjV>>,
    live: Map<Seq<char>, ObjV>,
    global: Map<Seq<char>, ObjV>,
    name: Seq<char>,
) -> Option<ObjV> {
    match block_resolve(blocks, name) {
        Some(v) => Some(v),
        None => if live.contains_key(name) {
            Some(live[name])
        } else if global.contains_key(name) {
            Some(global[name])
        } else {
            None
        },
    }
}

/// Looks a name up per the read path and hands back a copy of its value.
pub fn lookup_name(
    frames: &Vec<Frame>,
    live: &NameMap<Object>,
    global: &NameMap<Object>,
    name: &str,
) -> (r: Option<Object>)
    requires
        frames_wf(frames@),
        live.wf(),
        global.wf(),
    ensures
        match r {
            Some(o) => resolve(heaps_of(frames@), live@, global@, name@) == Some(o@),
            None => resolve(heaps_of(frames@), live@, global@, name@) is None,
        },
{
    let ghost blocks = heaps_of(frames@);
    proof {
        assert(blocks.subrange(0, blocks.len() as int) =~= blocks);
    }
    let mut j: usize = frames.len();
    while j > 0
        invariant
            j <= frames@.len(),
            frames_wf(frames@),
            blocks == heaps_of(frames@),
            block_resolve(blocks, name@) == block_resolve(
                blocks.subrange(0, j as int),
                name@,
            ),
        decreases j,
    {
        j = j - 1;
        proof {
            assert(blocks.subrange(0, j + 1).drop_last() =~= blocks.subrange(0, j as int));
            assert(blocks.subrange(0, j + 1).last() == frames@[j as int].heap@);
        }
        match frames[j].heap.get(name) {
            Some(o) => {
                return Some(o.duplicate());
            },
            None => {},
        }
    }
    proof {
        assert(blocks.subrange(0, 0) =~= Seq::<Map<Seq<char>, ObjV>>::empty());
    }
    match live.get(name) {
        Some(o) => Some(o.duplicate()),
        None => match global.get(name) {
            Some(o) => Some(o.duplicate()),
            None => None,
        },
    }
}

/// Where an assignment inside open blocks lands: the innermost block heap
/// that already binds the name is overwritten; with none, the name is
/// created in the innermost block's heap.
pub open spec fn block_assign(
    blocks: Seq<Map<Seq<char>, ObjV>>,
    name: Seq<char>,
    v: ObjV,
) -> Seq<Map<Seq<char>, ObjV>>
    decreases blocks.len(),
{
    if blocks.len() == 0 {
        blocks
    } else if blocks.last().contains_key(name) {
        blocks.update(blocks.len() - 1, blocks.last().insert(name, v))
    } else {
        block_assign(blocks.drop_last(), name, v).push(blocks.last())
    }
}

/// Some open block binds the name.
pub open spec fn blocks_contain(blocks: Seq<Map<Seq<char>, ObjV>>, name: Seq<char>) -> bool {
    exists|i: int| 0 <= i < blocks.len() && (#[trigger] blocks[i]).contains_key(name)
}

/// The assignment rule: in the global body every write goes to the global
/// heap. Elsewhere a name already bound globally is overwritten there, one
/// bound in the invocation's heap is overwritten there; otherwise, inside
/// open blocks, the write lands per `block_assign`, and with no open block
/// it creates the binding in the invocation's heap.
pub open spec fn assign_model(
    blocks: Seq<Map<Seq<char>, ObjV>>,
    live: Map<Seq<char>, ObjV>,
    global: Map<Seq<char>, ObjV>,
    in_global: bool,
    name: Seq<char>,
    v: ObjV,
) -> (Seq<Map<Seq<char>, ObjV>>, Map<Seq<char>, ObjV>, Map<Seq<char>, ObjV>) {
    if in_global {
        (blocks, live, global.insert(name, v))
    } else if global.contains_key(name) {
        (blocks, live, global.insert(name, v))
    } else if live.contains_key(name) {
        (blocks, live.insert(name, v), global)
    } else if blocks.len() > 0 {
        if blocks_contain(blocks, name) {
            (block_assign(blocks, name, v), live, global)
        } else {
            (blocks.update(blocks.len() - 1, blocks.last().insert(name, v)), live, global)
        }
    } else {
        (blocks, live.insert(name, v), global)
    }
}

/// Performs one assignment per the assignment rule.
pub fn assign_name(
    frames: &mut Vec<Frame>,
    live: &mut NameMap<Object>,
    global: &mut NameMap<Object>,
    in_global: bool,
    name: String,
    value: Object,
)
    requires
        frames_wf(old(frames)@),
        old(live).wf(),
        old(global).wf(),
        obj_wf(value@),
        heap_wf(old(live)@),
        heap_wf(old(global)@),
    ensures
        frames_wf(final(frames)@),
        final(live).wf(),
        final(global).wf(),
        heap_wf(final(live)@),
        heap_wf(final(global)@),
        final(frames)@.len() == old(frames)@.len(),
        forall|i: int|
            0 <= i < final(frames)@.len() ==> (#[trigger] final(frames)@[i]).kind == old(
                frames,
            )@[i].kind,
        (heaps_of(final(frames)@), final(live)@, final(global)@) == assign_model(
            heaps_of(old(frames)@),
            old(live)@,
            old(global)@,
            in_global,
            name@,
            value@,
        ),
{
    let ghost blocks = heaps_of(old(frames)@);
    if in_global {
        global.insert(name, value);
        return ;
    }
    if global.contains(name.as_str()) {
        global.insert(name, value);
        return ;
    }
    if live.contains(name.as_str()) {
        live.insert(name, value);
        return ;
    }
    if frames.len() == 0 {
        live.insert(name, value);
        return ;
    }
    // scan the open blocks innermost first for an existing binding
    let mut j: usize = frames.len();
    #[verifier::loop_isolation(false)]
    while j > 0
        invariant
            j <= frames@.len(),
            frames@ == old(frames)@,
            forall|i: int| j <= i < blocks.len() ==> !(#[trigger] blocks[i]).contains_key(name@),
        decreases j,
    {
        j = j - 1;
        if frames[j].heap.contains(name.as_str()) {
            proof {
                assert(blocks[j as int].contains_key(name@));
                assert(blocks_contain(blocks, name@));
                lemma_block_assign_at(blocks, name@, value@, j as int);
            }
            update_frame_heap(frames, j, name, value);
            proof {
                assert(heaps_of(frames@) =~= block_assign(blocks, name@, value@));
            }
            return ;
        }
    }
    // no block binds it: create it in the innermost block's heap
    proof {
        assert(!blocks_contain(blocks, name@));
    }
    let innermost = frames.len() - 1;
    update_frame_heap(frames, innermost, name, value);
}

/// `block_assign` updates exactly the innermost heap that binds the name.
proof fn lemma_block_assign_at(blocks: Seq<Map<Seq<char>, ObjV>>, name: Seq<char>, v: ObjV, j: int)
    requires
        0 <= j < blocks.len(),
        blocks[j].contains_key(name),
        forall|i: int| j < i < blocks.len() ==> !(#[trigger] blocks[i]).contains_key(name),
    ensures
        block_assign(blocks, name, v) =~= blocks.update(j, blocks[j].insert(name, v)),
    decreases blocks.len(),
{
    if j == blocks.len() - 1 {
    } else {
        assert(!blocks.last().contains_key(name));
        lemma_block_assign_at(blocks.drop_last(), name, v, j);
        assert(blocks.drop_last().update(j, blocks[j].insert(name, v)).push(blocks.last())
            =~= blocks.update(j, blocks[j].insert(name, v)));
    }
}

/// Inserts a binding into the heap of the block at the given position.
fn update_frame_heap(frames: &mut Vec<Frame>, i: usize, name: String, value: Object)
    requires
        i < old(frames)@.len(),
        frames_wf(old(frames)@),
        obj_wf(value@),
    ensures
        frames_wf(final(frames)@),
        final(frames)@.len() == old(frames)@.len(),
        forall|k: int|
            0 <= k < final(frames)@.len() && k != i ==> final(frames)@[k] == old(frames)@[k],
        final(frames)@[i as int].kind == old(frames)@[i as int].kind,
        final(frames)@[i as int].heap.wf(),
        final(frames)@[i as int].heap@ == old(frames)@[i as int].heap@.insert(name@, value@),
        heaps_of(final(frames)@) =~= heaps_of(old(frames)@).update(
            i as int,
            old(frames)@[i as int].heap@.insert(name@, value@),
        ),
{
    let mut taken = Frame { kind: BlockKind::Taken, heap: NameMap::new() };
    frames.set_and_swap(i, &mut taken);
    let kind = taken.kind;
    let mut heap = taken.heap;
    heap.insert(name, value);
    frames.set(i, Frame { kind, heap });
}

} // verus!
