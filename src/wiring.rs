//! The wire and port topology laid out on the lattice.
//!
//! Wires and ports are kept in insertion order with unique keys, so that every
//! walk over them (and everything numbered from such a walk) is reproducible.
use vstd::prelude::*;
use crate::lattice::{IntPos3, WireId, is_wire, same_pos, same_wire, wire_less, wire_lt};

verus! {

/// A named label on a lattice point: the point is electrically the same as
/// every other point, on the lattice or in the circuit, with the same name.
#[derive(Clone, Debug)]
pub struct Port(pub String);

/// No key occurs twice.
pub open spec fn unique_keys<K, V>(s: Seq<(K, V)>) -> bool {
    forall|i: int, j: int| 0 <= i < j < s.len() ==> s[i].0 != s[j].0
}

/// Position of the entry with key `k`, or -1 where there is none.
pub open spec fn key_index<K, V>(s: Seq<(K, V)>, k: K) -> int {
    if exists|i: int| 0 <= i < s.len() && s[i].0 == k {
        choose|i: int| 0 <= i < s.len() && s[i].0 == k
    } else {
        -1
    }
}

/// `s` without the entry whose key is `k` (unchanged where there is none).
pub open spec fn without_key<K, V>(s: Seq<(K, V)>, k: K) -> Seq<(K, V)> {
    if key_index(s, k) >= 0 {
        s.remove(key_index(s, k))
    } else {
        s
    }
}

/// `s` with the value under `k` replaced, or with `(k, v)` appended.
pub open spec fn with_entry<K, V>(s: Seq<(K, V)>, k: K, v: V) -> Seq<(K, V)> {
    if key_index(s, k) >= 0 {
        s.update(key_index(s, k), (k, v))
    } else {
        s.push((k, v))
    }
}

/// The same wire walked the other way round.
pub open spec fn reversed(id: WireId) -> WireId {
    (id.1, id.0)
}

/// With unique keys, the entry found under a key is the one that has it.
pub proof fn lemma_key_index_unique<K, V>(s: Seq<(K, V)>, k: K, i: int)
    requires
        unique_keys(s),
        0 <= i < s.len(),
        s[i].0 == k,
    ensures
        key_index(s, k) == i,
{
}

/// A key that no entry has is found nowhere.
pub proof fn lemma_no_key<K, V>(s: Seq<(K, V)>, k: K)
    requires
        forall|i: int| 0 <= i < s.len() ==> s[i].0 != k,
    ensures
        key_index(s, k) == -1,
{
}

fn find_wire<W>(s: &Vec<(WireId, W)>, k: WireId) -> (r: Option<usize>)
    requires
        unique_keys(s@),
    ensures
        r matches Some(i) ==> i == key_index(s@, k) && i < s@.len(),
        r is None ==> key_index(s@, k) == -1,
{
    let mut i: usize = 0;
    while i < s.len()
        invariant
            i <= s@.len(),
            unique_keys(s@),
            forall|j: int| 0 <= j < i ==> s@[j].0 != k,
        decreases s@.len() - i,
    {
        if same_wire(s[i].0, k) {
            proof { lemma_key_index_unique(s@, k, i as int); }
            return Some(i);
        }
        i += 1;
    }
    proof { lemma_no_key(s@, k); }
    None
}

fn find_port(s: &Vec<(IntPos3, Port)>, k: IntPos3) -> (r: Option<usize>)
    requires
        unique_keys(s@),
    ensures
        r matches Some(i) ==> i == key_index(s@, k) && i < s@.len(),
        r is None ==> key_index(s@, k) == -1,
{
    let mut i: usize = 0;
    while i < s.len()
        invariant
            i <= s@.len(),
            unique_keys(s@),
            forall|j: int| 0 <= j < i ==> s@[j].0 != k,
        decreases s@.len() - i,
    {
        if same_pos(s[i].0, k) {
            proof { lemma_key_index_unique(s@, k, i as int); }
            return Some(i);
        }
        i += 1;
    }
    proof { lemma_no_key(s@, k); }
    None
}

/// Wires (with a payload `W` each, such as a resistance) and ports on the lattice.
pub struct Wiring3D<W> {
    wires: Vec<(WireId, W)>,
    ports: Vec<(IntPos3, Port)>,
}

impl<W> Wiring3D<W> {
    /// The wires in insertion order.
    pub closed spec fn wire_entries(&self) -> Seq<(WireId, W)> {
        self.wires@
    }

    /// The ports in insertion order.
    pub closed spec fn port_entries(&self) -> Seq<(IntPos3, Port)> {
        self.ports@
    }

    /// Keys are unique and every wire id spans one cell edge.
    pub open spec fn wf(&self) -> bool {
        &&& unique_keys(self.wire_entries())
        &&& unique_keys(self.port_entries())
        &&& forall|i: int| 0 <= i < self.wire_entries().len() ==> is_wire(#[trigger] self.wire_entries()[i].0)
    }

    /// An empty topology.
    pub fn new() -> (r: Self)
        ensures
            r.wf(),
            r.wire_entries() == Seq::<(WireId, W)>::empty(),
            r.port_entries() == Seq::<(IntPos3, Port)>::empty(),
    {
        Wiring3D { wires: Vec::new(), ports: Vec::new() }
    }

    /// The wires in insertion order.
    pub fn wires(&self) -> (r: &Vec<(WireId, W)>)
        ensures
            r@ == self.wire_entries(),
    {
        &self.wires
    }

    /// The ports in insertion order.
    pub fn ports(&self) -> (r: &Vec<(IntPos3, Port)>)
        ensures
            r@ == self.port_entries(),
    {
        &self.ports
    }

    /// Adds a wire, or replaces the payload of an existing one in place;
    /// returns the payload it replaced.
    pub fn insert(&mut self, pos: WireId, wire: W) -> (r: Option<W>)
        requires
            old(self).wf(),
            is_wire(pos),
        ensures
            final(self).wf(),
            final(self).wire_entries() == with_entry(old(self).wire_entries(), pos, wire),
            final(self).port_entries() == old(self).port_entries(),
            key_index(old(self).wire_entries(), pos) >= 0 ==> r == Some(
                old(self).wire_entries()[key_index(old(self).wire_entries(), pos)].1,
            ),
            key_index(old(self).wire_entries(), pos) < 0 ==> r is None,
    {
        match find_wire(&self.wires, pos) {
            Some(i) => {
                let (_, prev) = self.wires.remove(i);
                self.wires.insert(i, (pos, wire));
                proof {
                    assert(self.wires@ =~= old(self).wires@.update(i as int, (pos, wire)));
                }
                Some(prev)
            },
            None => {
                self.wires.push((pos, wire));
                None
            },
        }
    }

    /// The payload of a wire, found under either orientation of its id.
    pub fn get(&self, id: WireId) -> (r: Option<&W>)
        requires
            self.wf(),
        ensures
            key_index(self.wire_entries(), id) >= 0 ==> r == Some(
                &self.wire_entries()[key_index(self.wire_entries(), id)].1,
            ),
            key_index(self.wire_entries(), id) < 0 && key_index(self.wire_entries(), reversed(id)) >= 0
                ==> r == Some(&self.wire_entries()[key_index(self.wire_entries(), reversed(id))].1),
            key_index(self.wire_entries(), id) < 0 && key_index(self.wire_entries(), reversed(id)) < 0
                ==> r is None,
    {
        match find_wire(&self.wires, id) {
            Some(i) => Some(&self.wires[i].1),
            None => match find_wire(&self.wires, (id.1, id.0)) {
                Some(j) => Some(&self.wires[j].1),
                None => None,
            },
        }
    }

    /// The payload of a wire, found under either orientation of its id, for
    /// editing in place.
    pub fn get_mut(&mut self, id: WireId) -> (r: Option<&mut W>)
        requires
            old(self).wf(),
        ensures
            key_index(old(self).wire_entries(), id) >= 0 ==> r is Some,
            key_index(old(self).wire_entries(), id) < 0 && key_index(old(self).wire_entries(), reversed(id)) >= 0 ==> r is Some,
            key_index(old(self).wire_entries(), id) < 0 && key_index(old(self).wire_entries(), reversed(id)) < 0 ==> r is None,
            r matches Some(v) ==> {
                let i = if key_index(old(self).wire_entries(), id) >= 0 {
                    key_index(old(self).wire_entries(), id)
                } else {
                    key_index(old(self).wire_entries(), reversed(id))
                };
                &&& *v == old(self).wire_entries()[i].1
                &&& final(self).wire_entries() == old(self).wire_entries().update(i, (old(self).wire_entries()[i].0, *final(v)))
                &&& final(self).port_entries() == old(self).port_entries()
            },
            r is None ==> *final(self) == *old(self),
            final(self).wf(),
    {
        let i = match find_wire(&self.wires, id) {
            Some(i) => i,
            None => match find_wire(&self.wires, (id.1, id.0)) {
                Some(j) => j,
                None => return None,
            },
        };
        Some(&mut self.wires[i].1)
    }

    /// Removes a wire under either orientation of its id.
    pub fn remove(&mut self, id: WireId)
        requires
            old(self).wf(),
        ensures
            final(self).wf(),
            final(self).wire_entries() == without_key(
                without_key(old(self).wire_entries(), id),
                reversed(id),
            ),
            final(self).port_entries() == old(self).port_entries(),
    {
        if let Some(i) = find_wire(&self.wires, id) {
            self.wires.remove(i);
        }
        let ghost mid = self.wires@;
        assert(unique_keys(mid));
        if let Some(j) = find_wire(&self.wires, (id.1, id.0)) {
            self.wires.remove(j);
        }
    }

    /// The wire ids in lexicographic order: a canonical order that does not
    /// depend on the order of insertion.
    pub fn ordered_wire_ids(&self) -> (r: Vec<WireId>)
        requires
            self.wf(),
        ensures
            r@.len() == self.wire_entries().len(),
            forall|i: int, j: int| 0 <= i < j < r@.len() ==> wire_lt(#[trigger] r@[i], #[trigger] r@[j]),
            forall|id: WireId| r@.contains(id) <==> exists|t: int| 0 <= t < self.wire_entries().len() && self.wire_entries()[t].0 == id,
    {
        let ws = &self.wires;
        let mut r: Vec<WireId> = Vec::new();
        let mut k: usize = 0;
        while k < ws.len()
            invariant
                k <= ws@.len(),
                ws@ == self.wire_entries(),
                unique_keys(ws@),
                r@.len() == k,
                forall|i: int, j: int| 0 <= i < j < r@.len() ==> wire_lt(#[trigger] r@[i], #[trigger] r@[j]),
                forall|id: WireId| r@.contains(id) <==> exists|t: int| 0 <= t < k && ws@[t].0 == id,
            decreases ws@.len() - k,
        {
            let id = ws[k].0;
            let ghost before = r@;
            assert(forall|x: WireId| before.contains(x) <==> exists|t: int| 0 <= t < k && ws@[t].0 == x);
            let mut i: usize = 0;
            while i < r.len() && wire_less(r[i], id)
                invariant
                    i <= r@.len(),
                    r@ == before,
                    forall|j: int| 0 <= j < i ==> wire_lt(#[trigger] r@[j], id),
                decreases r@.len() - i,
            {
                i += 1;
            }
            proof {
                assert(!before.contains(id)) by {
                    if before.contains(id) {
                        let t = choose|t: int| 0 <= t < k && ws@[t].0 == id;
                        assert(ws@[t].0 == ws@[k as int].0);
                    }
                }
                if i < before.len() {
                    assert(before[i as int] != id);
                    assert(wire_lt(id, before[i as int]));
                }
            }
            r.insert(i, id);
            proof {
                let s = r@;
                assert(s == before.insert(i as int, id));
                assert forall|a: int, b: int| 0 <= a < b < s.len() implies wire_lt(#[trigger] s[a], #[trigger] s[b]) by {
                    if b < i {
                    } else if a < i && b == i {
                    } else if a < i {
                        assert(s[b] == before[b - 1]);
                        assert(wire_lt(before[a], id));
                    } else if a == i {
                        assert(s[b] == before[b - 1]);
                        if b - 1 > i {
                            assert(wire_lt(before[i as int], before[b - 1]));
                        }
                    } else {
                        assert(s[a] == before[a - 1] && s[b] == before[b - 1]);
                    }
                }
                assert forall|x: WireId| s.contains(x) <==> exists|t: int| 0 <= t < k + 1 && ws@[t].0 == x by {
                    if s.contains(x) {
                        let c = choose|c: int| 0 <= c < s.len() && s[c] == x;
                        if c < i {
                            assert(before[c] == x);
                            assert(before.contains(x));
                            let t = choose|t: int| 0 <= t < k && ws@[t].0 == x;
                            assert(0 <= t < k + 1 && ws@[t].0 == x);
                        } else if c > i {
                            assert(before[c - 1] == x);
                            assert(before.contains(x));
                            let t = choose|t: int| 0 <= t < k && ws@[t].0 == x;
                            assert(0 <= t < k + 1 && ws@[t].0 == x);
                        } else {
                            assert(ws@[k as int].0 == x);
                        }
                    }
                    if exists|t: int| 0 <= t < k + 1 && ws@[t].0 == x {
                        let t = choose|t: int| 0 <= t < k + 1 && ws@[t].0 == x;
                        if t < k {
                            assert(before.contains(x));
                            let c = choose|c: int| 0 <= c < before.len() && before[c] == x;
                            if c < i {
                                assert(s[c] == x);
                            } else {
                                assert(s[c + 1] == x);
                            }
                        } else {
                            assert(s[i as int] == x);
                        }
                    }
                }
            }
            k += 1;
        }
        r
    }

    /// Labels a lattice point with a port, replacing the label it had.
    pub fn set_port(&mut self, pos: IntPos3, port: Port) -> (r: Option<Port>)
        requires
            old(self).wf(),
        ensures
            final(self).wf(),
            final(self).port_entries() == with_entry(old(self).port_entries(), pos, port),
            final(self).wire_entries() == old(self).wire_entries(),
            key_index(old(self).port_entries(), pos) >= 0 ==> r == Some(
                old(self).port_entries()[key_index(old(self).port_entries(), pos)].1,
            ),
            key_index(old(self).port_entries(), pos) < 0 ==> r is None,
    {
        match find_port(&self.ports, pos) {
            Some(i) => {
                let (_, prev) = self.ports.remove(i);
                self.ports.insert(i, (pos, port));
                proof {
                    assert(self.ports@ =~= old(self).ports@.update(i as int, (pos, port)));
                }
                Some(prev)
            },
            None => {
                self.ports.push((pos, port));
                None
            },
        }
    }

    /// Removes the port label of a lattice point and returns it.
    pub fn remove_port(&mut self, pos: IntPos3) -> (r: Option<Port>)
        requires
            old(self).wf(),
        ensures
            final(self).wf(),
            final(self).port_entries() == without_key(old(self).port_entries(), pos),
            final(self).wire_entries() == old(self).wire_entries(),
            key_index(old(self).port_entries(), pos) >= 0 ==> r == Some(
                old(self).port_entries()[key_index(old(self).port_entries(), pos)].1,
            ),
            key_index(old(self).port_entries(), pos) < 0 ==> r is None,
    {
        match find_port(&self.ports, pos) {
            Some(i) => {
                let (_, prev) = self.ports.remove(i);
                Some(prev)
            },
            None => None,
        }
    }
}

} // verus!
