//! The two halves of the field/circuit coupling that touch the grid: the
//! circuit's voltage drops entered into the field along the wires, and the
//! field along the wires read back as sources for the circuit.
use vstd::prelude::*;
use crate::lattice::{IntPos3, WireId, axis_of, is_wire, wire_axis, lemma_wire_determined_by_start};
use crate::node_map::{NodeMap, lookup};
use crate::sim::{FdtdSim, all_equal, cell, cell_index, comp_of, curl_args, faces_rel, field_len, half_step_at, half_step_rel, interior, on_normal_face, step_rel, sum_rel, lemma_cell_bounds, lemma_decode_cell, lemma_shifted_in_range};
use crate::wiring::{Wiring3D, key_index, unique_keys, lemma_key_index_unique};

verus! {

/// The field value that belongs to a wire: the component along the wire's
/// axis at the wire's lower end.
pub open spec fn wire_cell(w: int, id: WireId) -> int {
    cell(w, id.0.0 as int, id.0.1 as int, id.0.2 as int, axis_of(id))
}

/// Every wire starts inside a grid `w` points wide.
pub open spec fn wires_in_grid<W>(ws: Seq<(WireId, W)>, w: int) -> bool {
    forall|t: int| 0 <= t < ws.len() ==> {
        let a = (#[trigger] ws[t]).0.0;
        &&& a.0 < w
        &&& a.1 < w
        &&& a.2 < w
    }
}

/// Both ends of every wire have a node in `nodes`, with a voltage in a
/// list of `n` voltages.
pub open spec fn wire_nodes_known<W>(ws: Seq<(WireId, W)>, nodes: Seq<(IntPos3, usize)>, n: int) -> bool {
    forall|t: int| 0 <= t < ws.len() ==> {
        let id = (#[trigger] ws[t]).0;
        &&& key_index(nodes, id.0) >= 0
        &&& key_index(nodes, id.1) >= 0
        &&& lookup(nodes, id.0) < n
        &&& lookup(nodes, id.1) < n
    }
}

/// Some wire of `ws` has its field value at flat position `j`.
pub open spec fn wire_at<W>(w: int, ws: Seq<(WireId, W)>, j: int) -> bool {
    exists|t: int| 0 <= t < ws.len() && wire_cell(w, ws[t].0) == j
}

proof fn lemma_wire_cells_distinct<W>(ws: Seq<(WireId, W)>, w: int, s: int, t: int)
    requires
        unique_keys(ws),
        forall|i: int| 0 <= i < ws.len() ==> is_wire(#[trigger] ws[i].0),
        wires_in_grid(ws, w),
        0 <= s < ws.len(),
        0 <= t < ws.len(),
        s != t,
    ensures
        wire_cell(w, ws[s].0) != wire_cell(w, ws[t].0),
        0 <= wire_cell(w, ws[s].0) < field_len(w),
{
    let p = ws[s].0;
    let q = ws[t].0;
    assert(is_wire(p) && is_wire(q));
    lemma_cell_bounds(w, p.0.0 as int, p.0.1 as int, p.0.2 as int, axis_of(p));
    lemma_decode_cell(w, p.0.0 as int, p.0.1 as int, p.0.2 as int, axis_of(p));
    lemma_decode_cell(w, q.0.0 as int, q.0.1 as int, q.0.2 as int, axis_of(q));
    if wire_cell(w, p) == wire_cell(w, q) {
        assert(p.0 == q.0);
        lemma_wire_determined_by_start(p, q);
    }
}

/// The flat position of a wire's field value.
fn wire_cell_index(w: usize, id: WireId) -> (r: usize)
    requires
        is_wire(id),
        id.0.0 < w,
        id.0.1 < w,
        id.0.2 < w,
        field_len(w as int) <= usize::MAX,
    ensures
        r == wire_cell(w as int, id),
{
    let axis = match wire_axis(id) {
        Some(axis) => axis,
        None => 0,
    };
    cell_index(w, id.0.0, id.0.1, id.0.2, axis)
}

/// What entering the voltage drops does, on a grid `w` wide whose E field
/// was `e0`: `e1` is the new E field and `ext` the drive field.
///
/// For each wire `(a, b)`, `ext` holds `sub(V[node(b)], V[node(a)])` at the
/// wire's cell and `e1` holds `zero` there; everywhere else `ext` is `zero`
/// and `e1` is `e0`.
pub open spec fn injected_rel<T, W, B: Fn(T, T) -> T>(
    e0: Seq<T>,
    w: int,
    ws: Seq<(WireId, W)>,
    nodes: Seq<(IntPos3, usize)>,
    voltages: Seq<T>,
    sub: B,
    zero: T,
    e1: Seq<T>,
    ext: Seq<T>,
) -> bool {
    &&& e1.len() == e0.len()
    &&& ext.len() == field_len(w)
    &&& forall|t: int| 0 <= t < ws.len() ==> {
        let id = (#[trigger] ws[t]).0;
        let k = wire_cell(w, id);
        &&& sub.ensures((voltages[lookup(nodes, id.1) as int], voltages[lookup(nodes, id.0) as int]), ext[k])
        &&& e1[k] == zero
    }
    &&& forall|j: int| 0 <= j < ext.len() && !wire_at(w, ws, j) ==> {
        &&& ext[j] == zero
        &&& e1[j] == e0[j]
    }
}

/// Enters the voltage drop of every wire into the field.
///
/// For each wire `(a, b)` the returned drive field holds
/// `sub(V[node(b)], V[node(a)])` at the wire's cell (`voltages` indexed by
/// node), and the natural E there is overwritten by `zero`: the drive
/// supersedes the field's own value. All other drive values are `zero`,
/// all other field values stay.
pub fn generate_efield<T: Copy, W, B: Fn(T, T) -> T>(
    fdtd: &mut FdtdSim<T>,
    nodemap: &NodeMap,
    wiring: &Wiring3D<W>,
    voltages: &Vec<T>,
    sub: &B,
    zero: T,
) -> (r: Vec<T>)
    requires
        old(fdtd).wf(),
        wiring.wf(),
        wires_in_grid(wiring.wire_entries(), old(fdtd).width_view() as int),
        unique_keys(nodemap.pos_map@),
        wire_nodes_known(wiring.wire_entries(), nodemap.pos_map@, voltages@.len() as int),
        forall|p: T, q: T| sub.requires((p, q)),
    ensures
        final(fdtd).wf(),
        final(fdtd).width_view() == old(fdtd).width_view(),
        final(fdtd).h_view() == old(fdtd).h_view(),
        injected_rel(
            old(fdtd).e_view(),
            old(fdtd).width_view() as int,
            wiring.wire_entries(),
            nodemap.pos_map@,
            voltages@,
            *sub,
            zero,
            final(fdtd).e_view(),
            r@,
        ),
{
    let w = fdtd.width();
    let ws = wiring.wires();
    let ghost e0 = fdtd.e_view();
    let ghost wi = w as int;
    proof {
        assert(wi * wi <= wi * wi * wi * 3 && wi * wi * wi <= wi * wi * wi * 3) by (nonlinear_arith)
            requires wi >= 0;
    }
    let n = w * w * w * 3;
    let mut external: Vec<T> = Vec::new();
    let mut i: usize = 0;
    while i < n
        invariant
            i <= n,
            external@.len() == i,
            forall|j: int| 0 <= j < i ==> #[trigger] external@[j] == zero,
        decreases n - i,
    {
        external.push(zero);
        i += 1;
    }
    let mut k: usize = 0;
    while k < ws.len()
        invariant
            k <= ws@.len(),
            ws@ == wiring.wire_entries(),
            wiring.wf(),
            wi == w,
            fdtd.wf(),
            fdtd.width_view() == w,
            fdtd.h_view() == old(fdtd).h_view(),
            e0 == old(fdtd).e_view(),
            n == field_len(wi),
            external@.len() == n,
            wires_in_grid(ws@, wi),
            unique_keys(nodemap.pos_map@),
            wire_nodes_known(ws@, nodemap.pos_map@, voltages@.len() as int),
            forall|p: T, q: T| sub.requires((p, q)),
            forall|t: int| 0 <= t < k ==> {
                let id = (#[trigger] ws@[t]).0;
                let c = wire_cell(wi, id);
                &&& sub.ensures((voltages@[lookup(nodemap.pos_map@, id.1) as int], voltages@[lookup(nodemap.pos_map@, id.0) as int]), external@[c])
                &&& fdtd.e_view()[c] == zero
            },
            forall|j: int| 0 <= j < n && !wire_at(wi, ws@.take(k as int), j) ==> {
                &&& #[trigger] external@[j] == zero
                &&& fdtd.e_view()[j] == e0[j]
            },
        decreases ws@.len() - k,
    {
        let id = ws[k].0;
        proof {
            assert(is_wire(ws@[k as int].0));
            assert(ws@[k as int].0.0.0 < w);
            lemma_cell_bounds(wi, id.0.0 as int, id.0.1 as int, id.0.2 as int, axis_of(id));
        }
        let c = wire_cell_index(w, id);
        assert(key_index(nodemap.pos_map@, id.0) >= 0 && key_index(nodemap.pos_map@, id.1) >= 0);
        let a_idx = match nodemap.node_of(id.0) { Some(v) => v, None => 0 };
        let b_idx = match nodemap.node_of(id.1) { Some(v) => v, None => 0 };
        assert(a_idx == lookup(nodemap.pos_map@, id.0) && b_idx == lookup(nodemap.pos_map@, id.1));
        let dv = (*sub)(voltages[b_idx], voltages[a_idx]);
        let ghost ext_prev = external@;
        let ghost e_prev = fdtd.e_view();
        external.set(c, dv);
        fdtd.set_e(c, zero);
        proof {
            assert forall|t: int| 0 <= t < k implies wire_cell(wi, (#[trigger] ws@[t]).0) != c by {
                lemma_wire_cells_distinct(ws@, wi, t, k as int);
            }
            assert(0 <= c < n);
            assert(external@ == ext_prev.update(c as int, dv));
            assert(fdtd.e_view() == e_prev.update(c as int, zero));
            assert(fdtd.e_view()[c as int] == zero);
            assert(external@[c as int] == dv);
            assert forall|t: int| 0 <= t < k + 1 implies {
                let id = (#[trigger] ws@[t]).0;
                let c = wire_cell(wi, id);
                &&& sub.ensures((voltages@[lookup(nodemap.pos_map@, id.1) as int], voltages@[lookup(nodemap.pos_map@, id.0) as int]), external@[c])
                &&& fdtd.e_view()[c] == zero
            } by {
                if t < k {
                    lemma_wire_cells_distinct(ws@, wi, t, k as int);
                    let ct = wire_cell(wi, ws@[t].0);
                    assert(ct != c);
                    assert(external@[ct] == ext_prev[ct]);
                    assert(fdtd.e_view()[ct] == e_prev[ct]);
                }
            }
            assert forall|j: int| 0 <= j < n && !wire_at(wi, ws@.take(k + 1), j) implies {
                &&& #[trigger] external@[j] == zero
                &&& fdtd.e_view()[j] == e0[j]
            } by {
                assert(ws@.take(k + 1)[k as int] == ws@[k as int]);
                assert(wire_cell(wi, ws@[k as int].0) != j);
                if wire_at(wi, ws@.take(k as int), j) {
                    let t = choose|t: int| 0 <= t < k && wire_cell(wi, ws@.take(k as int)[t].0) == j;
                    assert(ws@.take(k + 1)[t] == ws@.take(k as int)[t]);
                }
                assert(external@[j] == ext_prev[j]);
                assert(fdtd.e_view()[j] == e_prev[j]);
            }
        }
        k += 1;
    }
    assert(ws@.take(k as int) =~= ws@);
    assert forall|j: int| 0 <= j < external@.len() && !wire_at(wi, wiring.wire_entries(), j) implies {
        &&& external@[j] == zero
        &&& fdtd.e_view()[j] == e0[j]
    } by {
        assert(!wire_at(wi, ws@.take(k as int), j));
        assert(#[trigger] external@[j] == zero);
    }
    external
}


/// The solution-vector position of the voltage-drop unknown of a wire's
/// resistor: `slots` gives that position for each element index.
pub open spec fn wire_slot(elements: Seq<(WireId, usize)>, slots: Seq<usize>, id: WireId) -> int {
    slots[lookup(elements, id) as int] as int
}

/// Every wire has an element with a slot in a vector of `n` unknowns, and
/// no two wires share a slot.
pub open spec fn wire_slots_valid<W>(ws: Seq<(WireId, W)>, elements: Seq<(WireId, usize)>, slots: Seq<usize>, n: int) -> bool {
    &&& forall|t: int| 0 <= t < ws.len() ==> {
        let id = (#[trigger] ws[t]).0;
        &&& key_index(elements, id) >= 0
        &&& lookup(elements, id) < slots.len()
        &&& wire_slot(elements, slots, id) < n
    }
    &&& forall|s: int, t: int| 0 <= s < ws.len() && 0 <= t < ws.len() && s != t
        ==> wire_slot(elements, slots, ws[s].0) != wire_slot(elements, slots, ws[t].0)
}

/// Some wire of `ws` has its source at position `j` of the vector.
pub open spec fn slot_used<W>(ws: Seq<(WireId, W)>, elements: Seq<(WireId, usize)>, slots: Seq<usize>, j: int) -> bool {
    exists|t: int| 0 <= t < ws.len() && wire_slot(elements, slots, ws[t].0) == j
}

/// What reading the field back gives: `r` has `n` sources; at the slot of
/// each wire it holds `neg` of the field value at the wire's cell, and
/// `zero` at every other position.
pub open spec fn readback_rel<T, W, N: Fn(T) -> T>(
    field: Seq<T>,
    w: int,
    ws: Seq<(WireId, W)>,
    elements: Seq<(WireId, usize)>,
    slots: Seq<usize>,
    n: int,
    neg: N,
    zero: T,
    r: Seq<T>,
) -> bool {
    &&& r.len() == n
    &&& forall|t: int| 0 <= t < ws.len() ==> {
        let id = (#[trigger] ws[t]).0;
        neg.ensures((field[wire_cell(w, id)],), r[wire_slot(elements, slots, id)])
    }
    &&& forall|j: int| 0 <= j < n && !slot_used(ws, elements, slots, j) ==> r[j] == zero
}

/// Reads the field back along every wire as sources for the circuit.
///
/// Returns a vector of `n` sources: for each wire, the position of its
/// resistor's voltage-drop unknown holds `neg` of the field value at the
/// wire's cell; every other position holds `zero`.
pub fn readback_efield<T: Copy, W, N: Fn(T) -> T>(
    field: &Vec<T>,
    w: usize,
    nodemap: &NodeMap,
    wiring: &Wiring3D<W>,
    slots: &Vec<usize>,
    n: usize,
    neg: &N,
    zero: T,
) -> (r: Vec<T>)
    requires
        field@.len() == field_len(w as int),
        field_len(w as int) <= usize::MAX,
        wiring.wf(),
        wires_in_grid(wiring.wire_entries(), w as int),
        unique_keys(nodemap.component_idx_map@),
        wire_slots_valid(wiring.wire_entries(), nodemap.component_idx_map@, slots@, n as int),
        forall|v: T| neg.requires((v,)),
    ensures
        readback_rel(
            field@,
            w as int,
            wiring.wire_entries(),
            nodemap.component_idx_map@,
            slots@,
            n as int,
            *neg,
            zero,
            r@,
        ),
{
    let ws = wiring.wires();
    let ghost wi = w as int;
    let ghost el = nodemap.component_idx_map@;
    let mut external: Vec<T> = Vec::new();
    let mut i: usize = 0;
    while i < n
        invariant
            i <= n,
            external@.len() == i,
            forall|j: int| 0 <= j < i ==> #[trigger] external@[j] == zero,
        decreases n - i,
    {
        external.push(zero);
        i += 1;
    }
    let mut k: usize = 0;
    while k < ws.len()
        invariant
            k <= ws@.len(),
            ws@ == wiring.wire_entries(),
            wiring.wf(),
            wi == w,
            el == nodemap.component_idx_map@,
            field@.len() == field_len(wi),
            field_len(wi) <= usize::MAX,
            external@.len() == n,
            wires_in_grid(ws@, wi),
            unique_keys(el),
            wire_slots_valid(ws@, el, slots@, n as int),
            forall|v: T| neg.requires((v,)),
            forall|t: int| 0 <= t < k ==> {
                let id = (#[trigger] ws@[t]).0;
                neg.ensures((field@[wire_cell(wi, id)],), external@[wire_slot(el, slots@, id)])
            },
            forall|j: int| 0 <= j < n && !slot_used(ws@.take(k as int), el, slots@, j) ==> #[trigger] external@[j] == zero,
        decreases ws@.len() - k,
    {
        let id = ws[k].0;
        proof {
            assert(is_wire(ws@[k as int].0));
            assert(ws@[k as int].0.0.0 < w);
            lemma_cell_bounds(wi, id.0.0 as int, id.0.1 as int, id.0.2 as int, axis_of(id));
            assert(key_index(el, id) >= 0);
        }
        let c = wire_cell_index(w, id);
        let ci = match nodemap.component_of(id) { Some(v) => v, None => 0 };
        let slot = slots[ci];
        let v = neg(field[c]);
        let ghost ext_prev = external@;
        external.set(slot, v);
        proof {
            assert(external@ == ext_prev.update(slot as int, v));
            assert forall|t: int| 0 <= t < k + 1 implies {
                let id = (#[trigger] ws@[t]).0;
                neg.ensures((field@[wire_cell(wi, id)],), external@[wire_slot(el, slots@, id)])
            } by {
                if t < k {
                    assert(wire_slot(el, slots@, ws@[t].0) != slot);
                }
            }
            assert forall|j: int| 0 <= j < n && !slot_used(ws@.take(k + 1), el, slots@, j) implies #[trigger] external@[j] == zero by {
                assert(ws@.take(k + 1)[k as int] == ws@[k as int]);
                if slot_used(ws@.take(k as int), el, slots@, j) {
                    let t = choose|t: int| 0 <= t < k && wire_slot(el, slots@, ws@.take(k as int)[t].0) == j;
                    assert(ws@.take(k + 1)[t] == ws@.take(k as int)[t]);
                }
                assert(external@[j] == ext_prev[j]);
            }
        }
        k += 1;
    }
    assert(ws@.take(k as int) =~= ws@);
    assert forall|j: int| 0 <= j < n && !slot_used(wiring.wire_entries(), el, slots@, j) implies external@[j] == zero by {
        assert(!slot_used(ws@.take(k as int), el, slots@, j));
        assert(#[trigger] external@[j] == zero);
    }
    external
}


/// The field half of one coupled tick, on a grid `w` wide whose fields
/// were `e0`, `h0`: the voltage drops are entered (`injected_rel`, giving
/// `e_gen` and the drive `ext`), the grid takes one full step with no
/// magnetization and that drive (`step_rel`, giving `e1`, `h1`), and the
/// field is read back along the wires into the sources `r` (`readback_rel`).
pub open spec fn field_tick_rel<T, W, A: Fn(T, T) -> T, S: Fn(T, T) -> T, D: Fn(T, T, T, T) -> T, U: Fn(T, T) -> T, V: Fn(T, T) -> T, B: Fn(T, T) -> T, N: Fn(T) -> T>(
    e0: Seq<T>,
    h0: Seq<T>,
    w: int,
    ws: Seq<(WireId, W)>,
    nodes: Seq<(IntPos3, usize)>,
    elements: Seq<(WireId, usize)>,
    voltages: Seq<T>,
    slots: Seq<usize>,
    n: int,
    add: A,
    drive: S,
    diff: D,
    e_apply: U,
    h_apply: V,
    sub: B,
    neg: N,
    zero: T,
    e1: Seq<T>,
    h1: Seq<T>,
    r: Seq<T>,
) -> bool {
    &&& exists|e_gen: Seq<T>, ext: Seq<T>|
        injected_rel(e0, w, ws, nodes, voltages, sub, zero, e_gen, ext)
        && step_rel(e_gen, h0, Seq::new(field_len(w) as nat, |i: int| zero), ext, w, add, drive, diff, e_apply, h_apply, zero, e1, h1)
    &&& readback_rel(e1, w, ws, elements, slots, n, neg, zero, r)
}

/// Runs the field half of one coupled tick (see `field_tick_rel`) and
/// returns the sources for the circuit: the voltage drops of the previous
/// circuit solution `voltages` drive the grid along the wires, the grid
/// advances one step, and the new field along the wires comes back as one
/// source per wire, at the slot of the wire's resistor among `n` unknowns.
pub fn advance_fields<T: Copy, W, A: Fn(T, T) -> T, S: Fn(T, T) -> T, D: Fn(T, T, T, T) -> T, U: Fn(T, T) -> T, V: Fn(T, T) -> T, B: Fn(T, T) -> T, N: Fn(T) -> T>(
    fdtd: &mut FdtdSim<T>,
    nodemap: &NodeMap,
    wiring: &Wiring3D<W>,
    voltages: &Vec<T>,
    slots: &Vec<usize>,
    n: usize,
    add: &A,
    drive: &S,
    diff: &D,
    e_apply: &U,
    h_apply: &V,
    sub: &B,
    neg: &N,
    zero: T,
) -> (r: Vec<T>)
    requires
        old(fdtd).wf(),
        wiring.wf(),
        wires_in_grid(wiring.wire_entries(), old(fdtd).width_view() as int),
        unique_keys(nodemap.pos_map@),
        unique_keys(nodemap.component_idx_map@),
        wire_nodes_known(wiring.wire_entries(), nodemap.pos_map@, voltages@.len() as int),
        wire_slots_valid(wiring.wire_entries(), nodemap.component_idx_map@, slots@, n as int),
        forall|p: T, q: T| add.requires((p, q)),
        forall|p: T, q: T| drive.requires((p, q)),
        forall|p: T, q: T, r: T, t: T| diff.requires((p, q, r, t)),
        forall|p: T, q: T| e_apply.requires((p, q)),
        forall|p: T, q: T| h_apply.requires((p, q)),
        forall|p: T, q: T| sub.requires((p, q)),
        forall|v: T| neg.requires((v,)),
    ensures
        final(fdtd).wf(),
        final(fdtd).width_view() == old(fdtd).width_view(),
        field_tick_rel(
            old(fdtd).e_view(),
            old(fdtd).h_view(),
            old(fdtd).width_view() as int,
            wiring.wire_entries(),
            nodemap.pos_map@,
            nodemap.component_idx_map@,
            voltages@,
            slots@,
            n as int,
            *add,
            *drive,
            *diff,
            *e_apply,
            *h_apply,
            *sub,
            *neg,
            zero,
            final(fdtd).e_view(),
            final(fdtd).h_view(),
            r@,
        ),
{
    let w = fdtd.width();
    let ghost h0 = fdtd.h_view();
    let ext = generate_efield(fdtd, nodemap, wiring, voltages, sub, zero);
    let ghost e_gen = fdtd.e_view();
    let len = fdtd.e_field().len();
    let mut magnetization: Vec<T> = Vec::new();
    let mut i: usize = 0;
    while i < len
        invariant
            i <= len,
            magnetization@.len() == i,
            forall|j: int| 0 <= j < i ==> #[trigger] magnetization@[j] == zero,
        decreases len - i,
    {
        magnetization.push(zero);
        i += 1;
    }
    assert(magnetization@ =~= Seq::new(field_len(w as int) as nat, |i: int| zero));
    fdtd.step(&magnetization, &ext, add, drive, diff, e_apply, h_apply, zero);
    let r = readback_efield(fdtd.e_field(), w, nodemap, wiring, slots, n, neg, zero);
    assert(injected_rel(old(fdtd).e_view(), w as int, wiring.wire_entries(), nodemap.pos_map@, voltages@, *sub, zero, e_gen, ext@));
    r
}


/// Round trip along one wire: with H at zero before the tick, and an
/// arithmetic in which zero plus zero is zero, the differences of zeros are
/// zero and adding a zero curl leaves a value as it is, the source read
/// back for a wire whose cell is not a wall value is `neg(d)`, where `d` is
/// the wire's voltage drop `V[node(b)] - V[node(a)]` entered by `drive`
/// into a zeroed field value.
pub proof fn lemma_field_round_trip<T, W, A: Fn(T, T) -> T, S: Fn(T, T) -> T, D: Fn(T, T, T, T) -> T, U: Fn(T, T) -> T, V: Fn(T, T) -> T, B: Fn(T, T) -> T, N: Fn(T) -> T>(
    e0: Seq<T>,
    h0: Seq<T>,
    w: int,
    ws: Seq<(WireId, W)>,
    nodes: Seq<(IntPos3, usize)>,
    elements: Seq<(WireId, usize)>,
    voltages: Seq<T>,
    slots: Seq<usize>,
    n: int,
    add: A,
    drive: S,
    diff: D,
    e_apply: U,
    h_apply: V,
    sub: B,
    neg: N,
    zero: T,
    e1: Seq<T>,
    h1: Seq<T>,
    r: Seq<T>,
    t: int,
)
    requires
        field_tick_rel(e0, h0, w, ws, nodes, elements, voltages, slots, n, add, drive, diff, e_apply, h_apply, sub, neg, zero, e1, h1, r),
        e0.len() == field_len(w),
        h0.len() == field_len(w),
        all_equal(h0, zero),
        forall|i: int| 0 <= i < ws.len() ==> is_wire(#[trigger] ws[i].0),
        wires_in_grid(ws, w),
        0 <= t < ws.len(),
        !on_normal_face(w, wire_cell(w, ws[t].0)),
        forall|v: T| add.ensures((zero, zero), v) ==> v == zero,
        forall|v: T| diff.ensures((zero, zero, zero, zero), v) ==> v == zero,
        forall|x: T, v: T| e_apply.ensures((x, zero), v) ==> v == x,
    ensures
        exists|dv: T, d: T|
            sub.ensures((voltages[lookup(nodes, ws[t].0.1) as int], voltages[lookup(nodes, ws[t].0.0) as int]), dv)
            && drive.ensures((zero, dv), d)
            && neg.ensures((d,), r[wire_slot(elements, slots, ws[t].0)]),
{
    let id = ws[t].0;
    let k = wire_cell(w, id);
    assert(is_wire(id));
    assert(id.0.0 < w);
    lemma_cell_bounds(w, id.0.0 as int, id.0.1 as int, id.0.2 as int, axis_of(id));
    let mag = Seq::new(field_len(w) as nat, |i: int| zero);
    let (e_gen, ext) = choose|e_gen: Seq<T>, ext: Seq<T>|
        injected_rel(e0, w, ws, nodes, voltages, sub, zero, e_gen, ext)
        && step_rel(e_gen, h0, mag, ext, w, add, drive, diff, e_apply, h_apply, zero, e1, h1);
    let (driven, hm, e_mid, ei, h_mid) = choose|driven: Seq<T>, hm: Seq<T>, e_mid: Seq<T>, ei: Seq<T>, h_mid: Seq<T>|
        sum_rel(e_gen, ext, drive, driven)
        && sum_rel(h0, mag, add, hm)
        && half_step_rel(driven, hm, w, diff, e_apply, e_mid)
        && faces_rel(e_mid, w, zero, e1)
        && sum_rel(e1, ext, add, ei)
        && half_step_rel(h0, ei, w, diff, h_apply, h_mid)
        && faces_rel(h_mid, w, zero, h1);
    assert(all_equal(hm, zero)) by {
        assert forall|j: int| 0 <= j < hm.len() implies #[trigger] hm[j] == zero by {
            assert(add.ensures((h0[j], mag[j]), hm[j]));
        }
    }
    assert(e_gen[k] == zero);
    let dv = ext[k];
    let d = driven[k];
    assert(drive.ensures((e_gen[k], ext[k]), driven[k]));
    assert(half_step_at(driven[k], hm, w, k, diff, e_apply, e_mid[k]));
    if interior(w, k) {
        let a1 = (comp_of(k) + 1) % 3;
        let a2 = (comp_of(k) + 2) % 3;
        lemma_shifted_in_range(w, k, a1, 1, a2);
        lemma_shifted_in_range(w, k, a1, -1, a2);
        lemma_shifted_in_range(w, k, a2, 1, a1);
        lemma_shifted_in_range(w, k, a2, -1, a1);
        assert(curl_args(hm, w, k) == (zero, zero, zero, zero));
        let cv = choose|cv: T| diff.ensures(curl_args(hm, w, k), cv) && e_apply.ensures((driven[k], cv), e_mid[k]);
        assert(cv == zero);
    }
    assert(e_mid[k] == d);
    assert(e1[k] == d);
    assert(neg.ensures((e1[k],), r[wire_slot(elements, slots, id)]));
}

} // verus!
