//! The node map: which circuit node stands for which wire end on the lattice,
//! and which circuit element stands for which wire.
use vstd::prelude::*;
use crate::lattice::{IntPos3, WireId, same_pos, same_wire};
use crate::wiring::{Port, Wiring3D, key_index, unique_keys, lemma_key_index_unique, lemma_no_key};

verus! {

/// The solver-facing flattened circuit, as far as the coupling needs it: the
/// node count and the ordered list of two-terminal elements (`C` is the
/// element kind with its electrical values).
pub struct PrimitiveDiagram<C> {
    pub num_nodes: usize,
    pub two_terminal: Vec<((usize, usize), C)>,
}

/// A primitive diagram with its table of named ports: each name with the
/// circuit nodes that carry it.
pub struct RichPrimitiveDiagram<C> {
    pub primitive: PrimitiveDiagram<C>,
    pub ports: Vec<(String, Vec<usize>)>,
}

/// Both ends of every wire, in wire order: `a0, b0, a1, b1, ...`.
pub open spec fn endpoints<W>(ws: Seq<(WireId, W)>) -> Seq<IntPos3>
    decreases ws.len(),
{
    if ws.len() == 0 {
        Seq::empty()
    } else {
        endpoints(ws.drop_last()).push(ws.last().0.0).push(ws.last().0.1)
    }
}

/// The distinct points of `s`, in the order of their first occurrence.
pub open spec fn first_uses(s: Seq<IntPos3>) -> Seq<IntPos3>
    decreases s.len(),
{
    if s.len() == 0 {
        Seq::empty()
    } else if first_uses(s.drop_last()).contains(s.last()) {
        first_uses(s.drop_last())
    } else {
        first_uses(s.drop_last()).push(s.last())
    }
}

/// Points numbered consecutively from `base`.
pub open spec fn numbered(pts: Seq<IntPos3>, base: nat) -> Seq<(IntPos3, usize)> {
    pts.map(|i: int, p: IntPos3| (p, (base + i) as usize))
}

/// The value stored under key `k`.
pub open spec fn lookup<K, V>(m: Seq<(K, V)>, k: K) -> V {
    m[key_index(m, k)].1
}

/// A port table as names (character sequences) with their node lists.
pub open spec fn table_view(t: Seq<(String, Vec<usize>)>) -> Seq<(Seq<char>, Seq<usize>)> {
    t.map_values(|g: (String, Vec<usize>)| (g.0@, g.1@))
}

/// `node` added to the group called `name`, which is created at the end where
/// there is none yet.
pub open spec fn add_to_group(gs: Seq<(Seq<char>, Seq<usize>)>, name: Seq<char>, node: usize) -> Seq<(Seq<char>, Seq<usize>)> {
    if key_index(gs, name) >= 0 {
        gs.update(key_index(gs, name), (name, gs[key_index(gs, name)].1.push(node)))
    } else {
        gs.push((name, seq![node]))
    }
}

/// The port table after registering, in order, each port whose point has a
/// node under the name of that port.
pub open spec fn registered(gs: Seq<(Seq<char>, Seq<usize>)>, ports: Seq<(IntPos3, Port)>, nodes: Seq<(IntPos3, usize)>) -> Seq<(Seq<char>, Seq<usize>)>
    decreases ports.len(),
{
    if ports.len() == 0 {
        gs
    } else {
        let prev = registered(gs, ports.drop_last(), nodes);
        let (pos, port) = ports.last();
        if key_index(nodes, pos) >= 0 {
            add_to_group(prev, port.0@, lookup(nodes, pos))
        } else {
            prev
        }
    }
}

/// The pairs `(g[i], g[j])`, `i < j`, for one fixed `i`, by increasing `j`.
pub open spec fn row_pairs(g: Seq<usize>, i: int) -> Seq<(usize, usize)> {
    Seq::new((g.len() - i - 1) as nat, |t: int| (g[i], g[i + 1 + t]))
}

/// The pairs `(g[i], g[j])`, `i < j`, for the first `n` values of `i`.
pub open spec fn group_pairs_upto(g: Seq<usize>, n: int) -> Seq<(usize, usize)>
    decreases n,
{
    if n <= 0 {
        Seq::empty()
    } else {
        group_pairs_upto(g, n - 1) + row_pairs(g, n - 1)
    }
}

/// Every pair of distinct positions of a port group, in order.
pub open spec fn group_pairs(g: Seq<usize>) -> Seq<(usize, usize)> {
    group_pairs_upto(g, g.len() as int)
}

/// The node pairs tied together, group after group.
pub open spec fn tie_pairs(gs: Seq<(Seq<char>, Seq<usize>)>) -> Seq<(usize, usize)>
    decreases gs.len(),
{
    if gs.len() == 0 {
        Seq::empty()
    } else {
        tie_pairs(gs.drop_last()) + group_pairs(gs.last().1)
    }
}

proof fn lemma_contains_push(s: Seq<IntPos3>, x: IntPos3)
    ensures
        forall|p: IntPos3| s.push(x).contains(p) <==> (s.contains(p) || p == x),
{
    assert forall|p: IntPos3| s.push(x).contains(p) <==> (s.contains(p) || p == x) by {
        if s.push(x).contains(p) {
            let i = choose|i: int| 0 <= i < s.push(x).len() && s.push(x)[i] == p;
            if i < s.len() {
                assert(s[i] == p);
            }
        }
        if s.contains(p) {
            let i = choose|i: int| 0 <= i < s.len() && s[i] == p;
            assert(s.push(x)[i] == p);
        }
        if p == x {
            assert(s.push(x)[s.len() as int] == p);
        }
    }
}

proof fn lemma_first_uses(s: Seq<IntPos3>)
    ensures
        first_uses(s).no_duplicates(),
        forall|p: IntPos3| first_uses(s).contains(p) <==> s.contains(p),
        first_uses(s).len() <= s.len(),
    decreases s.len(),
{
    if s.len() > 0 {
        let d = s.drop_last();
        lemma_first_uses(d);
        assert(d.push(s.last()) =~= s);
        lemma_contains_push(d, s.last());
        let f = first_uses(d);
        assert(first_uses(s) == (if f.contains(s.last()) { f } else { f.push(s.last()) }));
        if f.contains(s.last()) {
            assert forall|p: IntPos3| first_uses(s).contains(p) <==> s.contains(p) by {
                assert(s == d.push(s.last()));
                assert(d.push(s.last()).contains(p) <==> (d.contains(p) || p == s.last()));
                assert(f.contains(p) <==> d.contains(p));
            }
        } else {
            lemma_contains_push(f, s.last());
            let g = f.push(s.last());
            assert forall|i: int, j: int| 0 <= i < g.len() && 0 <= j < g.len() && i != j implies g[i] != g[j] by {
                if i < f.len() && j < f.len() {
                } else if i < f.len() {
                    assert(f.contains(g[i]));
                } else {
                    assert(f.contains(g[j]));
                }
            }
            assert forall|p: IntPos3| first_uses(s).contains(p) <==> s.contains(p) by {
                assert(s == d.push(s.last()));
                assert(d.push(s.last()).contains(p) <==> (d.contains(p) || p == s.last()));
                assert(f.contains(p) <==> d.contains(p));
            }
        }
    }
}

proof fn lemma_endpoints_step<W>(ws: Seq<(WireId, W)>, k: int)
    requires
        0 <= k < ws.len(),
    ensures
        endpoints(ws.take(k + 1)) == endpoints(ws.take(k)).push(ws[k].0.0).push(ws[k].0.1),
{
    assert(ws.take(k + 1).drop_last() =~= ws.take(k));
}

proof fn lemma_endpoints_len<W>(ws: Seq<(WireId, W)>)
    ensures
        endpoints(ws).len() == 2 * ws.len(),
    decreases ws.len(),
{
    if ws.len() > 0 {
        lemma_endpoints_len(ws.drop_last());
    }
}

proof fn lemma_numbered_unique(pts: Seq<IntPos3>, base: nat)
    requires
        pts.no_duplicates(),
    ensures
        unique_keys(numbered(pts, base)),
        numbered(pts, base).len() == pts.len(),
{
    assert forall|i: int, j: int| 0 <= i < j < numbered(pts, base).len()
        implies numbered(pts, base)[i].0 != numbered(pts, base)[j].0 by {
        assert(numbered(pts, base)[i].0 == pts[i]);
        assert(numbered(pts, base)[j].0 == pts[j]);
    }
}

/// Looks up the node of `pos`, numbering it `*num_nodes` (and counting it)
/// where it has none yet.
fn node_insert(map: &mut Vec<(IntPos3, usize)>, pos: IntPos3, num_nodes: &mut usize, Ghost(seen): Ghost<Seq<IntPos3>>, Ghost(base): Ghost<nat>) -> (r: usize)
    requires
        old(map)@ == numbered(first_uses(seen), base),
        *old(num_nodes) == base + first_uses(seen).len(),
        *old(num_nodes) < usize::MAX,
    ensures
        final(map)@ == numbered(first_uses(seen.push(pos)), base),
        *final(num_nodes) == base + first_uses(seen.push(pos)).len(),
        0 <= r - base < first_uses(seen.push(pos)).len(),
        first_uses(seen.push(pos))[r - base] == pos,
        final(map)@[r - base] == (pos, r),
        old(map)@.len() <= final(map)@.len(),
        forall|j: int| 0 <= j < old(map)@.len() ==> final(map)@[j] == old(map)@[j],
{
    let ghost s2 = seen.push(pos);
    assert(s2.drop_last() =~= seen);
    proof { lemma_first_uses(seen); }
    let mut i: usize = 0;
    while i < map.len()
        invariant
            i <= map@.len(),
            map@ == numbered(first_uses(seen), base),
            *num_nodes == base + first_uses(seen).len(),
            *num_nodes < usize::MAX,
            forall|j: int| 0 <= j < i ==> first_uses(seen)[j] != pos,
        decreases map@.len() - i,
    {
        if same_pos(map[i].0, pos) {
            assert(first_uses(seen)[i as int] == pos);
            assert(first_uses(seen).contains(pos));
            assert(seen.push(pos).drop_last() =~= seen);
            assert(first_uses(seen.push(pos)) == first_uses(seen));
            return map[i].1;
        }
        i += 1;
    }
    assert(!first_uses(seen).contains(pos));
    assert(s2 == seen.push(pos));
    assert(s2.drop_last() =~= seen);
    let idx = *num_nodes;
    map.push((pos, idx));
    *num_nodes = idx + 1;
    assert(map@ =~= numbered(first_uses(s2), base));
    idx
}

/// Finds the group called `name` in a port table whose names are unique.
fn find_group(t: &Vec<(String, Vec<usize>)>, name: &String) -> (r: Option<usize>)
    requires
        unique_keys(table_view(t@)),
    ensures
        r matches Some(i) ==> i == key_index(table_view(t@), name@) && i < t@.len(),
        r is None ==> key_index(table_view(t@), name@) == -1,
{
    let ghost v = table_view(t@);
    let mut i: usize = 0;
    while i < t.len()
        invariant
            i <= t@.len(),
            v == table_view(t@),
            unique_keys(v),
            forall|j: int| 0 <= j < i ==> v[j].0 != name@,
        decreases t@.len() - i,
    {
        if t[i].0 == *name {
            proof { lemma_key_index_unique(v, name@, i as int); }
            return Some(i);
        }
        i += 1;
    }
    proof { lemma_no_key(v, name@); }
    None
}

/// Adds `node` to the group called `name`, creating the group at the end
/// where there is none.
fn add_port_node(t: &mut Vec<(String, Vec<usize>)>, name: &String, node: usize)
    requires
        unique_keys(table_view(old(t)@)),
    ensures
        unique_keys(table_view(final(t)@)),
        table_view(final(t)@) == add_to_group(table_view(old(t)@), name@, node),
{
    let ghost v = table_view(t@);
    let ghost t0 = t@;
    match find_group(t, name) {
        Some(i) => {
            let (nm, mut members) = t.remove(i);
            assert(nm@ == name@ && members@ == v[i as int].1);
            members.push(node);
            t.insert(i, (nm, members));
            assert(t@ =~= t0.update(i as int, t@[i as int]));
            assert(key_index(v, name@) == i);
            let ghost w = add_to_group(v, name@, node);
            assert(w == v.update(i as int, (name@, v[i as int].1.push(node))));
            assert forall|j: int| 0 <= j < w.len() implies table_view(t@)[j] == w[j] by {
                if j != i {
                    assert(table_view(t@)[j] == (t0[j].0@, t0[j].1@));
                }
            }
            assert(table_view(t@) =~= add_to_group(v, name@, node));
        },
        None => {
            let mut members: Vec<usize> = Vec::new();
            members.push(node);
            assert(members@ =~= seq![node]);
            let nm = name.clone();
            t.push((nm, members));
            assert(table_view(t@)[v.len() as int] == (name@, seq![node]));
            assert(table_view(t@) =~= add_to_group(v, name@, node));
            assert forall|a: int, b: int| 0 <= a < b < table_view(t@).len()
                implies table_view(t@)[a].0 != table_view(t@)[b].0 by {
                if b == v.len() {
                    assert(v[a].0 != name@);
                }
            }
        },
    }
}

/// The node numbered for `pos` in `m`, if any.
fn lookup_node(m: &Vec<(IntPos3, usize)>, pos: IntPos3) -> (r: Option<usize>)
    requires
        unique_keys(m@),
    ensures
        key_index(m@, pos) >= 0 ==> r == Some(lookup(m@, pos)),
        key_index(m@, pos) < 0 ==> r is None,
{
    let mut i: usize = 0;
    while i < m.len()
        invariant
            i <= m@.len(),
            unique_keys(m@),
            forall|j: int| 0 <= j < i ==> m@[j].0 != pos,
        decreases m@.len() - i,
    {
        if same_pos(m[i].0, pos) {
            proof { lemma_key_index_unique(m@, pos, i as int); }
            return Some(m[i].1);
        }
        i += 1;
    }
    proof { lemma_no_key(m@, pos); }
    None
}

/// Registers, in order, every port whose point has a node, under its name.
fn register_ports(t: &mut Vec<(String, Vec<usize>)>, ports: &Vec<(IntPos3, Port)>, nodes: &Vec<(IntPos3, usize)>)
    requires
        unique_keys(table_view(old(t)@)),
        unique_keys(nodes@),
    ensures
        unique_keys(table_view(final(t)@)),
        table_view(final(t)@) == registered(table_view(old(t)@), ports@, nodes@),
{
    let ghost v0 = table_view(t@);
    let mut k: usize = 0;
    while k < ports.len()
        invariant
            k <= ports@.len(),
            unique_keys(nodes@),
            unique_keys(table_view(t@)),
            table_view(t@) == registered(v0, ports@.take(k as int), nodes@),
        decreases ports@.len() - k,
    {
        assert(ports@.take(k + 1).drop_last() =~= ports@.take(k as int));
        let pos = ports[k].0;
        match lookup_node(nodes, pos) {
            Some(node) => {
                add_port_node(t, &ports[k].1.0, node);
            },
            None => {},
        }
        k += 1;
    }
    assert(ports@.take(ports@.len() as int) =~= ports@);
}

/// Appends one zero-impedance element per pair of nodes in each port group.
fn append_ties<C, T: Fn() -> C>(tt: &mut Vec<((usize, usize), C)>, t: &Vec<(String, Vec<usize>)>, tie: &T)
    requires
        tie.requires(()),
    ensures
        final(tt)@.len() == old(tt)@.len() + tie_pairs(table_view(t@)).len(),
        forall|k: int| 0 <= k < old(tt)@.len() ==> final(tt)@[k] == old(tt)@[k],
        forall|k: int| 0 <= k < tie_pairs(table_view(t@)).len() ==> {
            &&& (#[trigger] final(tt)@[old(tt)@.len() + k]).0 == tie_pairs(table_view(t@))[k]
            &&& tie.ensures((), final(tt)@[old(tt)@.len() + k].1)
        },
{
    let ghost v = table_view(t@);
    let ghost l0 = tt@.len();
    let ghost t0 = tt@;
    let ghost mut done: Seq<(usize, usize)> = Seq::empty();
    let mut gi: usize = 0;
    while gi < t.len()
        invariant
            gi <= t@.len(),
            v == table_view(t@),
            tie.requires(()),
            done == tie_pairs(v.take(gi as int)),
            tt@.len() == l0 + done.len(),
            forall|k: int| 0 <= k < l0 ==> tt@[k] == t0[k],
            forall|k: int| 0 <= k < done.len() ==> {
                &&& (#[trigger] tt@[l0 + k]).0 == done[k]
                &&& tie.ensures((), tt@[l0 + k].1)
            },
        decreases t@.len() - gi,
    {
        let g = &t[gi].1;
        let n = g.len();
        let ghost gs = g@;
        assert(gs == v[gi as int].1);
        let ghost before = done;
        let mut i: usize = 0;
        while i < n
            invariant
                i <= n,
                n == gs.len(),
                gs == g@,
                tie.requires(()),
                done == before + group_pairs_upto(gs, i as int),
                tt@.len() == l0 + done.len(),
                forall|k: int| 0 <= k < l0 ==> tt@[k] == t0[k],
                forall|k: int| 0 <= k < done.len() ==> {
                    &&& (#[trigger] tt@[l0 + k]).0 == done[k]
                    &&& tie.ensures((), tt@[l0 + k].1)
                },
            decreases n - i,
        {
            let ghost row_start = done;
            let mut j: usize = i + 1;
            while j < n
                invariant
                    i < n,
                    i + 1 <= j <= n,
                    n == gs.len(),
                    gs == g@,
                    tie.requires(()),
                    done == row_start + row_pairs(gs, i as int).take(j - i - 1),
                    tt@.len() == l0 + done.len(),
                    forall|k: int| 0 <= k < l0 ==> tt@[k] == t0[k],
                    forall|k: int| 0 <= k < done.len() ==> {
                        &&& (#[trigger] tt@[l0 + k]).0 == done[k]
                        &&& tie.ensures((), tt@[l0 + k].1)
                    },
                decreases n - j,
            {
                let c = tie();
                tt.push(((g[i], g[j]), c));
                proof {
                    assert(row_pairs(gs, i as int).take(j - i) =~= row_pairs(gs, i as int).take(j - i - 1).push((gs[i as int], gs[j as int])));
                    done = done.push((gs[i as int], gs[j as int]));
                }
                j += 1;
            }
            proof {
                assert(row_pairs(gs, i as int).take(n - i - 1) =~= row_pairs(gs, i as int));
                assert(group_pairs_upto(gs, i + 1) == group_pairs_upto(gs, i as int) + row_pairs(gs, i as int));
                assert(done =~= before + group_pairs_upto(gs, i + 1));
            }
            i += 1;
        }
        proof {
            assert(v.take(gi + 1).drop_last() =~= v.take(gi as int));
            assert(done =~= tie_pairs(v.take(gi + 1)));
        }
        gi += 1;
    }
    assert(v.take(t@.len() as int) =~= v);
}

/// Where each wire end and each wire went in the circuit: the node of every
/// lattice point that ends a wire, and the element index of every wire.
pub struct NodeMap {
    pub pos_map: Vec<(IntPos3, usize)>,
    pub component_idx_map: Vec<(WireId, usize)>,
}

impl NodeMap {
    /// The conditions under which `new` numbers the wire ends and appends
    /// the elements: a port table with unique names, and room for the new
    /// nodes in `usize`.
    pub open spec fn can_build<C, W>(rich: &RichPrimitiveDiagram<C>, wiring: &Wiring3D<W>) -> bool {
        &&& wiring.wf()
        &&& unique_keys(table_view(rich.ports@))
        &&& rich.primitive.num_nodes + 2 * wiring.wire_entries().len() <= usize::MAX
    }

    /// What `new` yields on a diagram `rich0` and a topology `wiring`: the
    /// map `self` and the diagram `rich1`.
    ///
    /// Nodes are numbered from the diagram's node count on, in the order in
    /// which wire ends first occur (`a` before `b`, wire after wire). Wire
    /// `k` becomes the element at `len + k` (`len` the diagram's element
    /// count), a resistor made from its payload between the nodes of its
    /// ends. Every port whose point ends a wire registers that node under its
    /// name. Then every two nodes of each port group are tied by a
    /// zero-impedance element, group after group.
    pub open spec fn built_from<C, W, R: Fn(&W) -> C, T: Fn() -> C>(
        self,
        rich0: RichPrimitiveDiagram<C>,
        wiring: Wiring3D<W>,
        resistor: R,
        tie: T,
        rich1: RichPrimitiveDiagram<C>,
    ) -> bool {
        let ws = wiring.wire_entries();
        let base = rich0.primitive.num_nodes as nat;
        let l0 = rich0.primitive.two_terminal@.len();
        let tt = rich1.primitive.two_terminal@;
        let ties = tie_pairs(table_view(rich1.ports@));
        &&& self.pos_map@ == numbered(first_uses(endpoints(ws)), base)
        &&& unique_keys(self.pos_map@)
        &&& rich1.primitive.num_nodes == base + self.pos_map@.len()
        &&& self.component_idx_map@ == ws.map(|k: int, e: (WireId, W)| (e.0, (l0 + k) as usize))
        &&& table_view(rich1.ports@) == registered(table_view(rich0.ports@), wiring.port_entries(), self.pos_map@)
        &&& unique_keys(table_view(rich1.ports@))
        &&& tt.len() == l0 + ws.len() + ties.len()
        &&& l0 + ws.len() <= usize::MAX
        &&& forall|k: int| 0 <= k < l0 ==> tt[k] == rich0.primitive.two_terminal@[k]
        &&& forall|k: int| 0 <= k < ws.len() ==> {
            &&& (#[trigger] tt[l0 + k]).0 == (lookup(self.pos_map@, ws[k].0.0), lookup(self.pos_map@, ws[k].0.1))
            &&& resistor.ensures((&ws[k].1,), tt[l0 + k].1)
        }
        &&& forall|k: int| 0 <= k < ties.len() ==> {
            &&& (#[trigger] tt[l0 + ws.len() + k]).0 == ties[k]
            &&& tie.ensures((), tt[l0 + ws.len() + k].1)
        }
    }

    /// Inserts the wires into the diagram, recording where the nodes are.
    pub fn new<C, W, R: Fn(&W) -> C, T: Fn() -> C>(
        rich: &mut RichPrimitiveDiagram<C>,
        wiring: &Wiring3D<W>,
        resistor: &R,
        tie: &T,
    ) -> (r: NodeMap)
        requires
            NodeMap::can_build(old(rich), wiring),
            forall|w: &W| resistor.requires((w,)),
            tie.requires(()),
        ensures
            r.built_from(*old(rich), *wiring, *resistor, *tie, *final(rich)),
    {
        let ws = wiring.wires();
        let ghost base = rich.primitive.num_nodes as nat;
        let ghost l0 = rich.primitive.two_terminal@.len();
        let ghost tt0 = rich.primitive.two_terminal@;
        let ghost ports0 = rich.ports@;
        let mut pos_map: Vec<(IntPos3, usize)> = Vec::new();
        let mut component_idx_map: Vec<(WireId, usize)> = Vec::new();
        let mut k: usize = 0;
        proof { lemma_endpoints_len(ws@); }
        while k < ws.len()
            invariant
                k <= ws@.len(),
                ws@ == wiring.wire_entries(),
                base + 2 * ws@.len() <= usize::MAX,
                forall|w: &W| resistor.requires((w,)),
                rich.ports@ == ports0,
                pos_map@ == numbered(first_uses(endpoints(ws@.take(k as int))), base),
                rich.primitive.num_nodes == base + first_uses(endpoints(ws@.take(k as int))).len(),
                rich.primitive.two_terminal@.len() == l0 + k,
                forall|t: int| 0 <= t < l0 ==> rich.primitive.two_terminal@[t] == tt0[t],
                forall|t: int| 0 <= t < k ==> {
                    let e = #[trigger] rich.primitive.two_terminal@[l0 + t];
                    &&& 0 <= e.0.0 - base < pos_map@.len()
                    &&& 0 <= e.0.1 - base < pos_map@.len()
                    &&& pos_map@[e.0.0 - base] == (ws@[t].0.0, e.0.0)
                    &&& pos_map@[e.0.1 - base] == (ws@[t].0.1, e.0.1)
                    &&& resistor.ensures((&ws@[t].1,), e.1)
                },
                component_idx_map@ == ws@.take(k as int).map(|t: int, e: (WireId, W)| (e.0, (l0 + t) as usize)),
            decreases ws@.len() - k,
        {
            let ghost seen = endpoints(ws@.take(k as int));
            proof {
                lemma_endpoints_step(ws@, k as int);
                lemma_endpoints_len(ws@.take(k as int));
                lemma_first_uses(seen);
                lemma_first_uses(seen.push(ws@[k as int].0.0));
            }
            let (a, b) = ws[k].0;
            let a_idx = node_insert(&mut pos_map, a, &mut rich.primitive.num_nodes, Ghost(seen), Ghost(base));
            let b_idx = node_insert(&mut pos_map, b, &mut rich.primitive.num_nodes, Ghost(seen.push(a)), Ghost(base));
            let component = resistor(&ws[k].1);
            let component_idx = rich.primitive.two_terminal.len();
            rich.primitive.two_terminal.push(((a_idx, b_idx), component));
            component_idx_map.push((ws[k].0, component_idx));
            proof {
                assert(ws@.take(k + 1).map(|t: int, e: (WireId, W)| (e.0, (l0 + t) as usize)) =~= ws@.take(k as int).map(|t: int, e: (WireId, W)| (e.0, (l0 + t) as usize)).push((ws@[k as int].0, component_idx)));
            }
            k += 1;
        }
        assert(ws@.take(ws@.len() as int) =~= ws@);
        let resistors_end = rich.primitive.two_terminal.len();
        assert(resistors_end == l0 + ws@.len());
        let ghost pts = first_uses(endpoints(ws@));
        proof {
            lemma_first_uses(endpoints(ws@));
            lemma_numbered_unique(pts, base);
            assert forall|t: int| 0 <= t < ws@.len() implies {
                let e = #[trigger] rich.primitive.two_terminal@[l0 + t];
                e.0 == (lookup(pos_map@, ws@[t].0.0), lookup(pos_map@, ws@[t].0.1))
            } by {
                let e = rich.primitive.two_terminal@[l0 + t];
                lemma_key_index_unique(pos_map@, ws@[t].0.0, e.0.0 - base);
                lemma_key_index_unique(pos_map@, ws@[t].0.1, e.0.1 - base);
            }
        }
        register_ports(&mut rich.ports, wiring.ports(), &pos_map);
        let ghost tt1 = rich.primitive.two_terminal@;
        append_ties(&mut rich.primitive.two_terminal, &rich.ports, tie);
        proof {
            assert forall|t: int| 0 <= t < ws@.len() implies
                #[trigger] rich.primitive.two_terminal@[l0 + t] == tt1[l0 + t] by {
            }
        }
        NodeMap { pos_map, component_idx_map }
    }
    /// The node of a lattice point, if a wire ends there.
    pub fn node_of(&self, pos: IntPos3) -> (r: Option<usize>)
        requires
            unique_keys(self.pos_map@),
        ensures
            key_index(self.pos_map@, pos) >= 0 ==> r == Some(lookup(self.pos_map@, pos)),
            key_index(self.pos_map@, pos) < 0 ==> r is None,
    {
        lookup_node(&self.pos_map, pos)
    }

    /// The element index of a wire, if it has one.
    pub fn component_of(&self, id: WireId) -> (r: Option<usize>)
        requires
            unique_keys(self.component_idx_map@),
        ensures
            key_index(self.component_idx_map@, id) >= 0 ==> r == Some(lookup(self.component_idx_map@, id)),
            key_index(self.component_idx_map@, id) < 0 ==> r is None,
    {
        let m = &self.component_idx_map;
        let mut i: usize = 0;
        while i < m.len()
            invariant
                i <= m@.len(),
                m@ == self.component_idx_map@,
                unique_keys(m@),
                forall|j: int| 0 <= j < i ==> m@[j].0 != id,
            decreases m@.len() - i,
        {
            if same_wire(m[i].0, id) {
                proof { lemma_key_index_unique(m@, id, i as int); }
                return Some(m[i].1);
            }
            i += 1;
        }
        proof { lemma_no_key(m@, id); }
        None
    }
}

/// Building the node map twice from the same diagram and the same topology
/// numbers every lattice point the same way, gives every wire the same
/// element, registers the same port groups and joins the same nodes.
pub proof fn lemma_node_map_deterministic<C, W, R: Fn(&W) -> C, T: Fn() -> C>(
    m1: NodeMap,
    m2: NodeMap,
    rich0: RichPrimitiveDiagram<C>,
    wiring: Wiring3D<W>,
    resistor: R,
    tie: T,
    rich1: RichPrimitiveDiagram<C>,
    rich2: RichPrimitiveDiagram<C>,
)
    requires
        m1.built_from(rich0, wiring, resistor, tie, rich1),
        m2.built_from(rich0, wiring, resistor, tie, rich2),
    ensures
        m1.pos_map@ == m2.pos_map@,
        m1.component_idx_map@ == m2.component_idx_map@,
        rich1.primitive.num_nodes == rich2.primitive.num_nodes,
        table_view(rich1.ports@) == table_view(rich2.ports@),
        rich1.primitive.two_terminal@.len() == rich2.primitive.two_terminal@.len(),
        forall|k: int| 0 <= k < rich1.primitive.two_terminal@.len() ==>
            (#[trigger] rich1.primitive.two_terminal@[k]).0 == rich2.primitive.two_terminal@[k].0,
{
    let l0 = rich0.primitive.two_terminal@.len();
    let n = wiring.wire_entries().len();
    assert forall|k: int| 0 <= k < rich1.primitive.two_terminal@.len() implies
        (#[trigger] rich1.primitive.two_terminal@[k]).0 == rich2.primitive.two_terminal@[k].0 by {
        if k >= l0 + n {
            let t = k - l0 - n;
            assert(rich1.primitive.two_terminal@[l0 + n + t].0 == rich2.primitive.two_terminal@[l0 + n + t].0);
        } else if k >= l0 {
            let t = k - l0;
            assert(rich1.primitive.two_terminal@[l0 + t].0 == rich2.primitive.two_terminal@[l0 + t].0);
        }
    }
}

proof fn lemma_group_pairs_upto_contains(g: Seq<usize>, m: int, i: int, j: int)
    requires
        0 <= i < m <= g.len(),
        i < j < g.len(),
    ensures
        group_pairs_upto(g, m).contains((g[i], g[j])),
    decreases m,
{
    let prev = group_pairs_upto(g, m - 1);
    let row = row_pairs(g, m - 1);
    assert(group_pairs_upto(g, m) == prev + row);
    if i == m - 1 {
        assert(row[j - i - 1] == (g[i], g[j]));
        assert((prev + row)[prev.len() + j - i - 1] == (g[i], g[j]));
    } else {
        lemma_group_pairs_upto_contains(g, m - 1, i, j);
        let x = choose|x: int| 0 <= x < prev.len() && prev[x] == (g[i], g[j]);
        assert((prev + row)[x] == (g[i], g[j]));
    }
}

proof fn lemma_tie_pairs_contains(gs: Seq<(Seq<char>, Seq<usize>)>, gi: int, i: int, j: int)
    requires
        0 <= gi < gs.len(),
        0 <= i < j < gs[gi].1.len(),
    ensures
        tie_pairs(gs).contains((gs[gi].1[i], gs[gi].1[j])),
    decreases gs.len(),
{
    let prev = tie_pairs(gs.drop_last());
    let last = group_pairs(gs.last().1);
    assert(tie_pairs(gs) == prev + last);
    if gi == gs.len() - 1 {
        lemma_group_pairs_upto_contains(gs.last().1, gs.last().1.len() as int, i, j);
        let x = choose|x: int| 0 <= x < last.len() && last[x] == (gs[gi].1[i], gs[gi].1[j]);
        assert((prev + last)[prev.len() + x] == last[x]);
    } else {
        assert(gs.drop_last()[gi] == gs[gi]);
        lemma_tie_pairs_contains(gs.drop_last(), gi, i, j);
        let x = choose|x: int| 0 <= x < prev.len() && prev[x] == (gs[gi].1[i], gs[gi].1[j]);
        assert((prev + last)[x] == prev[x]);
    }
}

/// Any two nodes registered under one port name are joined by a
/// zero-impedance element that the node map appended to the diagram.
pub proof fn lemma_port_nodes_tied<C, W, R: Fn(&W) -> C, T: Fn() -> C>(
    m: NodeMap,
    rich0: RichPrimitiveDiagram<C>,
    wiring: Wiring3D<W>,
    resistor: R,
    tie: T,
    rich1: RichPrimitiveDiagram<C>,
    gi: int,
    i: int,
    j: int,
)
    requires
        m.built_from(rich0, wiring, resistor, tie, rich1),
        0 <= gi < rich1.ports@.len(),
        0 <= i < j < rich1.ports@[gi].1@.len(),
    ensures
        exists|k: int|
            rich0.primitive.two_terminal@.len() + wiring.wire_entries().len() <= k < rich1.primitive.two_terminal@.len()
            && (#[trigger] rich1.primitive.two_terminal@[k]).0 == (rich1.ports@[gi].1@[i], rich1.ports@[gi].1@[j])
            && tie.ensures((), rich1.primitive.two_terminal@[k].1),
{
    let gs = table_view(rich1.ports@);
    assert(gs[gi] == (rich1.ports@[gi].0@, rich1.ports@[gi].1@));
    lemma_tie_pairs_contains(gs, gi, i, j);
    let ties = tie_pairs(gs);
    let x = choose|x: int| 0 <= x < ties.len() && ties[x] == (gs[gi].1[i], gs[gi].1[j]);
    let off = rich0.primitive.two_terminal@.len() + wiring.wire_entries().len();
    assert(rich1.primitive.two_terminal@[off + x].0 == ties[x]);
}


/// The node map is a bijection between the lattice points that end a wire
/// and the node indices `base .. base + count` that it added, where `base`
/// is the diagram's node count before: every wire end has a node, every
/// node in that range belongs to exactly one point, and no other point has
/// a node.
pub proof fn lemma_node_map_bijection<C, W, R: Fn(&W) -> C, T: Fn() -> C>(
    m: NodeMap,
    rich0: RichPrimitiveDiagram<C>,
    wiring: Wiring3D<W>,
    resistor: R,
    tie: T,
    rich1: RichPrimitiveDiagram<C>,
)
    requires
        m.built_from(rich0, wiring, resistor, tie, rich1),
    ensures
        forall|p: IntPos3| key_index(m.pos_map@, p) >= 0 <==> endpoints(wiring.wire_entries()).contains(p),
        forall|p: IntPos3, q: IntPos3| key_index(m.pos_map@, p) >= 0 && key_index(m.pos_map@, q) >= 0 && p != q
            ==> lookup(m.pos_map@, p) != lookup(m.pos_map@, q),
        forall|i: int| 0 <= i < m.pos_map@.len() ==> (#[trigger] m.pos_map@[i]).1 == rich0.primitive.num_nodes + i,
        rich1.primitive.num_nodes == rich0.primitive.num_nodes + m.pos_map@.len(),
{
    let s = endpoints(wiring.wire_entries());
    let pts = first_uses(s);
    let base = rich0.primitive.num_nodes as nat;
    lemma_first_uses(s);
    assert forall|p: IntPos3| key_index(m.pos_map@, p) >= 0 <==> s.contains(p) by {
        if key_index(m.pos_map@, p) >= 0 {
            let i = key_index(m.pos_map@, p);
            assert(m.pos_map@[i].0 == p);
            assert(pts[i] == p);
            assert(pts.contains(p));
        }
        if s.contains(p) {
            assert(pts.contains(p));
            let i = choose|i: int| 0 <= i < pts.len() && pts[i] == p;
            assert(m.pos_map@[i].0 == p);
            lemma_key_index_unique(m.pos_map@, p, i);
        }
    }
    assert forall|p: IntPos3, q: IntPos3| key_index(m.pos_map@, p) >= 0 && key_index(m.pos_map@, q) >= 0 && p != q
        implies lookup(m.pos_map@, p) != lookup(m.pos_map@, q) by {
        let i = key_index(m.pos_map@, p);
        let j = key_index(m.pos_map@, q);
        assert(m.pos_map@[i].0 == p);
        assert(m.pos_map@[j].0 == q);
        assert(i != j);
    }
}


proof fn lemma_endpoints_contain<W>(ws: Seq<(WireId, W)>, t: int)
    requires
        0 <= t < ws.len(),
    ensures
        endpoints(ws).contains(ws[t].0.0),
        endpoints(ws).contains(ws[t].0.1),
    decreases ws.len(),
{
    let d = endpoints(ws.drop_last());
    let e = endpoints(ws);
    assert(e == d.push(ws.last().0.0).push(ws.last().0.1));
    if t == ws.len() - 1 {
        assert(e[d.len() as int] == ws[t].0.0);
        assert(e[d.len() as int + 1] == ws[t].0.1);
    } else {
        assert(ws.drop_last()[t] == ws[t]);
        lemma_endpoints_contain(ws.drop_last(), t);
        let i = choose|i: int| 0 <= i < d.len() && d[i] == ws[t].0.0;
        let j = choose|j: int| 0 <= j < d.len() && d[j] == ws[t].0.1;
        assert(e[i] == d[i]);
        assert(e[j] == d[j]);
    }
}

/// A node map covers its topology: both ends of every wire have a node
/// below the new node count, and wire `k` is found as the element at
/// `len + k`, `len` the diagram's element count before.
pub proof fn lemma_node_map_covers_wires<C, W, R: Fn(&W) -> C, T: Fn() -> C>(
    m: NodeMap,
    rich0: RichPrimitiveDiagram<C>,
    wiring: Wiring3D<W>,
    resistor: R,
    tie: T,
    rich1: RichPrimitiveDiagram<C>,
)
    requires
        wiring.wf(),
        m.built_from(rich0, wiring, resistor, tie, rich1),
    ensures
        unique_keys(m.component_idx_map@),
        forall|t: int| 0 <= t < wiring.wire_entries().len() ==> {
            let id = (#[trigger] wiring.wire_entries()[t]).0;
            &&& key_index(m.pos_map@, id.0) >= 0
            &&& key_index(m.pos_map@, id.1) >= 0
            &&& lookup(m.pos_map@, id.0) < rich1.primitive.num_nodes
            &&& lookup(m.pos_map@, id.1) < rich1.primitive.num_nodes
            &&& key_index(m.component_idx_map@, id) >= 0
            &&& lookup(m.component_idx_map@, id) == rich0.primitive.two_terminal@.len() + t
        },
{
    let ws = wiring.wire_entries();
    let cm = m.component_idx_map@;
    let l0 = rich0.primitive.two_terminal@.len();
    lemma_node_map_bijection(m, rich0, wiring, resistor, tie, rich1);
    assert forall|i: int, j: int| 0 <= i < j < cm.len() implies cm[i].0 != cm[j].0 by {
        assert(cm[i].0 == ws[i].0 && cm[j].0 == ws[j].0);
    }
    assert forall|t: int| 0 <= t < ws.len() implies {
        let id = (#[trigger] ws[t]).0;
        &&& key_index(m.pos_map@, id.0) >= 0
        &&& key_index(m.pos_map@, id.1) >= 0
        &&& lookup(m.pos_map@, id.0) < rich1.primitive.num_nodes
        &&& lookup(m.pos_map@, id.1) < rich1.primitive.num_nodes
        &&& key_index(cm, id) >= 0
        &&& lookup(cm, id) == l0 + t
    } by {
        let id = ws[t].0;
        lemma_endpoints_contain(ws, t);
        let i = key_index(m.pos_map@, id.0);
        let j = key_index(m.pos_map@, id.1);
        assert(m.pos_map@[i].1 == rich0.primitive.num_nodes + i);
        assert(m.pos_map@[j].1 == rich0.primitive.num_nodes + j);
        assert(cm[t] == (id, (l0 + t) as usize));
        lemma_key_index_unique(cm, id, t);
    }
}

} // verus!
