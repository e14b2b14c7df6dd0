use vstd::prelude::*;
use vstd::arithmetic::power2::pow2;
use crate::bits::{
    is_pow2, lg, np2, next_pow2, log2, pow2_usize, lemma_np2_bounds, lemma_pow2_lg, lemma_lg_pow2,
};
use crate::errors::Error;
use crate::field::{
    FieldElement, f_add, f_mul, in_field, in_field_seq, vals, fe_add, fe_mul, fe_from_u64,
    copy_elems,
};
use crate::gate::{Gate, Operation};
use crate::multilinear::MultiLinearPolynomial;
use crate::product_polynomial::poly_views;

verus! {

/// Each layer's gates as a mathematical sequence.
pub open spec fn layer_views(layers: Seq<Vec<Gate>>) -> Seq<Seq<Gate>> {
    layers.map_values(|l: Vec<Gate>| l@)
}

/// The padded wire count of a layer: the next power of two, at least 2.
pub open spec fn pad_len(n: nat) -> nat {
    if np2(n) < 2 {
        2
    } else {
        np2(n)
    }
}

/// The output of one gate over the wire values of the layer below.
pub open spec fn gate_out(g: Gate, wires: Seq<int>) -> int {
    match g.operation {
        Operation::Add => f_add(wires[g.left as int], wires[g.right as int]),
        Operation::Mul => f_mul(wires[g.left as int], wires[g.right as int]),
    }
}

/// The padded wire table a layer produces from the wires below it.
pub open spec fn eval_layer(gates: Seq<Gate>, wires: Seq<int>) -> Seq<int> {
    Seq::new(
        pad_len(gates.len()),
        |j: int|
            if j < gates.len() {
                gate_out(gates[j], wires)
            } else {
                0
            },
    )
}

/// The per-layer wire tables, inputs first.  Layers are stored output layer
/// first, so the recursion peels the output layer off the front.
pub open spec fn circuit_evals(layers: Seq<Seq<Gate>>, inputs: Seq<int>) -> Seq<Seq<int>>
    decreases layers.len(),
{
    if layers.len() == 0 {
        seq![inputs]
    } else {
        let rest = circuit_evals(layers.drop_first(), inputs);
        rest.push(eval_layer(layers.first(), rest.last()))
    }
}

/// Every gate of the layer reads wires that exist below it.
pub open spec fn refs_ok(gates: Seq<Gate>, wlen: nat) -> bool {
    forall|j: int|
        0 <= j < gates.len() ==> (#[trigger] gates[j]).left < wlen && gates[j].right < wlen
}

/// Every layer's gates read wires that its lower layer produces.
pub open spec fn layers_ok(layers: Seq<Seq<Gate>>, inputs: Seq<int>) -> bool
    decreases layers.len(),
{
    if layers.len() == 0 {
        true
    } else {
        layers_ok(layers.drop_first(), inputs) && refs_ok(
            layers.first(),
            circuit_evals(layers.drop_first(), inputs).last().len(),
        )
    }
}

/// One more than the largest wire index a layer reads.
pub open spec fn max_ref(gates: Seq<Gate>) -> nat
    decreases gates.len(),
{
    if gates.len() == 0 {
        0
    } else {
        let m = max_ref(gates.drop_last());
        let g = gates.last();
        let gm: nat = if g.left >= g.right {
            (g.left + 1) as nat
        } else {
            (g.right + 1) as nat
        };
        if gm >= m {
            gm
        } else {
            m
        }
    }
}

/// The bit width of one input-wire index in the layer's selector.
pub open spec fn sel_b(gates: Seq<Gate>) -> nat {
    lg(np2(max_ref(gates)))
}

/// The selector table length: padded outputs times two input-index ranges.
pub open spec fn sel_len(gates: Seq<Gate>) -> nat {
    pad_len(gates.len()) * pow2(2 * sel_b(gates))
}

pub open spec fn gate_matches(g: Gate, is_add: bool) -> bool {
    match g.operation {
        Operation::Add => is_add,
        Operation::Mul => !is_add,
    }
}

/// The selector index of gate `j`: its output index, left index and right
/// index concatenated as bit fields of width `b`.
pub open spec fn gate_index(gates: Seq<Gate>, b: nat, j: int) -> int {
    (j * pow2(b) + gates[j].left) * pow2(b) + gates[j].right
}

/// Whether one of the first `upto` gates matching the operation sits at
/// selector index `i`.
pub open spec fn sel_entry(gates: Seq<Gate>, is_add: bool, i: int, upto: int) -> bool {
    exists|j: int|
        0 <= j < upto && gate_matches(#[trigger] gates[j], is_add) && i == gate_index(
            gates,
            sel_b(gates),
            j,
        )
}

/// The selector polynomial of a layer: 1 exactly at the index of each gate
/// performing the chosen operation, 0 elsewhere.
pub open spec fn selector(gates: Seq<Gate>, is_add: bool) -> Seq<int> {
    Seq::new(
        sel_len(gates),
        |i: int|
            if sel_entry(gates, is_add, i, gates.len() as int) {
                1int
            } else {
                0int
            },
    )
}

/// Suffixes of a wire-safe circuit are wire-safe.
pub proof fn lemma_layers_ok_skip(layers: Seq<Seq<Gate>>, inputs: Seq<int>, k: int)
    requires
        layers_ok(layers, inputs),
        0 <= k <= layers.len(),
    ensures
        layers_ok(layers.skip(k), inputs),
    decreases k,
{
    if k > 0 {
        lemma_layers_ok_skip(layers, inputs, k - 1);
        assert(layers.skip(k - 1).drop_first() =~= layers.skip(k));
    } else {
        assert(layers.skip(0) =~= layers);
    }
}

/// A layered fan-in-2 arithmetic circuit, output layer first.  Layer `k`'s
/// gate `j` reads two wires of layer `k + 1` (or of the inputs, for the last
/// layer) and produces wire `j` of layer `k`.
pub struct Circuit {
    layers: Vec<Vec<Gate>>,
}

impl View for Circuit {
    type V = Seq<Seq<Gate>>;

    closed spec fn view(&self) -> Seq<Seq<Gate>> {
        layer_views(self.layers@)
    }
}

impl Circuit {
    /// Every layer is non-empty and small enough for its padded wire table
    /// and selector table to fit in memory.
    pub open spec fn wf(&self) -> bool {
        forall|k: int|
            0 <= k < self@.len() ==> {
                &&& (#[trigger] self@[k]).len() >= 1
                &&& self@[k].len() <= usize::MAX / 2
                &&& max_ref(self@[k]) <= usize::MAX / 2
                &&& sel_len(self@[k]) <= usize::MAX
            }
    }

    /// Wraps the layers, output layer first.
    pub fn new(layers: Vec<Vec<Gate>>) -> (r: Self)
        ensures
            r@ == layer_views(layers@),
    {
        Circuit { layers }
    }

    /// The number of gate layers.
    pub fn get_layer_count(&self) -> (r: usize)
        ensures
            r == self@.len(),
    {
        self.layers.len()
    }

    /// Evaluates the circuit on `inputs`, returning every layer's wire table
    /// as a multilinear polynomial, inputs first.
    pub fn evaluate_at_input(&mut self, inputs: Vec<FieldElement>) -> (res: Result<
        Vec<MultiLinearPolynomial>,
        Error,
    >)
        requires
            old(self).wf(),
            in_field_seq(vals(inputs@)),
        ensures
            final(self)@ == old(self)@,
            res is Ok <==> is_pow2(inputs@.len()) && layers_ok(old(self)@, vals(inputs@)),
            res is Ok ==> poly_views(res->Ok_0@) == circuit_evals(old(self)@, vals(inputs@))
                && (forall|j: int|
                0 <= j < res->Ok_0@.len() ==> (#[trigger] res->Ok_0@[j]).wf()) && res->Ok_0@.len()
                == old(self)@.len() + 1,
            res is Err ==> (res->Err_0 == Error::InvalidShape && !is_pow2(inputs@.len())) || (
            res->Err_0 == Error::IndexOutOfBounds && is_pow2(inputs@.len()) && !layers_ok(
                old(self)@,
                vals(inputs@),
            )),
    {
        let num_layers = self.layers.len();
        let ghost inputsv = vals(inputs@);
        let first_poly = match MultiLinearPolynomial::new(&inputs) {
            Ok(q) => q,
            Err(_) => {
                return Err(Error::InvalidShape);
            },
        };
        let mut evals: Vec<MultiLinearPolynomial> = Vec::new();
        evals.push(first_poly);
        proof {
            assert(poly_views(evals@) =~= circuit_evals(self@.skip(num_layers as int), inputsv));
        }
        let mut t: usize = 0;
        while t < num_layers
            invariant
                self.wf(),
                self@ == old(self)@,
                num_layers == self@.len(),
                inputsv == vals(inputs@),
                in_field_seq(inputsv),
                is_pow2(inputsv.len()),
                t <= num_layers,
                layers_ok(self@.skip((num_layers - t) as int), inputsv),
                poly_views(evals@) == circuit_evals(self@.skip((num_layers - t) as int), inputsv),
                evals@.len() == t + 1,
                forall|j: int| 0 <= j < evals@.len() ==> (#[trigger] evals@[j]).wf(),
            decreases num_layers - t,
        {
            let ghost suffix = self@.skip((num_layers - t) as int);
            let layer_pos = num_layers - 1 - t;
            proof {
                assert(self@[layer_pos as int] == layer_views(self.layers@)[layer_pos as int]);
                assert(self@.skip(layer_pos as int).drop_first() =~= suffix);
                assert(self@.skip(layer_pos as int).first() == self@[layer_pos as int]);
            }
            let ghost gv = self@[layer_pos as int];
            let wires: Vec<FieldElement> = copy_elems(
                evals[evals.len() - 1].get_evaluation_points(),
            );
            let ghost wiresv = vals(wires@);
            proof {
                assert(evals@[evals@.len() - 1]@ == poly_views(evals@)[evals@.len() - 1]);
                assert(wiresv == circuit_evals(suffix, inputsv).last());
                assert(in_field_seq(wiresv));
            }
            let gl = self.layers[layer_pos].len();
            let np = next_pow2(gl);
            let padded = if np < 2 {
                2
            } else {
                np
            };
            proof {
                assert(padded as nat == pad_len(gv.len()));
            }
            let mut next: Vec<FieldElement> = Vec::new();
            let mut j: usize = 0;
            while j < padded
                invariant
                    self.wf(),
                    self@ == old(self)@,
                    num_layers == self@.len(),
                    layer_pos < num_layers,
                    gv == self@[layer_pos as int],
                    gl == gv.len(),
                    wiresv == vals(wires@),
                    in_field_seq(wiresv),
                    inputsv == vals(inputs@),
                    is_pow2(inputsv.len()),
                    circuit_evals(self@.skip(layer_pos as int).drop_first(), inputsv).last()
                        == wiresv,
                    padded as nat == pad_len(gv.len()),
                    j <= padded,
                    next@.len() == j,
                    (j as int) <= gv.len() ==> refs_ok(gv.take(j as int), wiresv.len()),
                    (j as int) > gv.len() ==> refs_ok(gv, wiresv.len()),
                    forall|q: int|
                        0 <= q < j ==> (#[trigger] next@[q])@ == eval_layer(gv, wiresv)[q],
                decreases padded - j,
            {
                if j < gl {
                    let g = self.layers[layer_pos][j];
                    proof {
                        assert(gv[j as int] == g);
                    }
                    if g.left >= wires.len() || g.right >= wires.len() {
                        proof {
                            assert(gv[j as int].left >= wiresv.len() || gv[j as int].right
                                >= wiresv.len());
                            assert(!refs_ok(gv, wiresv.len()));
                            assert(self@.skip(layer_pos as int).first() == gv);
                            assert(!layers_ok(self@.skip(layer_pos as int), inputsv));
                            if layers_ok(self@, inputsv) {
                                lemma_layers_ok_skip(self@, inputsv, layer_pos as int);
                            }
                        }
                        return Err(Error::IndexOutOfBounds);
                    }
                    proof {
                        assert(in_field(wiresv[g.left as int]) && in_field(wiresv[g.right as int]));
                        assert(vals(wires@)[g.left as int] == wires@[g.left as int]@);
                        assert(vals(wires@)[g.right as int] == wires@[g.right as int]@);
                    }
                    let v = match g.operation {
                        Operation::Add => fe_add(&wires[g.left], &wires[g.right]),
                        Operation::Mul => fe_mul(&wires[g.left], &wires[g.right]),
                    };
                    next.push(v);
                    proof {
                        assert(next@[j as int] == v);
                        assert(gv.take(j + 1).drop_last() =~= gv.take(j as int));
                    }
                } else {
                    let v = fe_from_u64(0);
                    next.push(v);
                    proof {
                        assert(next@[j as int] == v);
                        if j + 1 <= gv.len() {
                            assert(gv.take(j + 1).drop_last() =~= gv.take(j as int));
                        } else if (j as int) == gv.len() {
                            assert(gv.take(j as int) =~= gv);
                        }
                    }
                }
                j = j + 1;
            }
            proof {
                if padded as int <= gv.len() {
                    assert(gv.take(padded as int) =~= gv);
                }
                assert(refs_ok(gv, wiresv.len()));
                assert forall|q: int|
                    0 <= q < padded implies vals(next@)[q] == eval_layer(gv, wiresv)[q] by {
                    assert(vals(next@)[q] == next@[q]@);
                }
                assert(vals(next@) =~= eval_layer(gv, wiresv));
                lemma_np2_bounds(gv.len());
                assert(is_pow2(pad_len(gv.len())));
            }
            let poly = match MultiLinearPolynomial::new(&next) {
                Ok(q) => q,
                Err(_) => {
                    proof {
                        assert(false);
                    }
                    return Err(Error::InvalidShape);
                },
            };
            evals.push(poly);
            proof {
                assert(circuit_evals(self@.skip(layer_pos as int), inputsv) == circuit_evals(
                    suffix,
                    inputsv,
                ).push(eval_layer(gv, circuit_evals(suffix, inputsv).last())));
                assert(poly_views(evals@) =~= circuit_evals(self@.skip(layer_pos as int), inputsv));
                assert(layers_ok(self@.skip(layer_pos as int), inputsv));
            }
            t = t + 1;
        }
        proof {
            assert(self@.skip(0) =~= self@);
        }
        Ok(evals)
    }

    /// The multilinear table of layer `layer_idx` (output side first) from a
    /// previously computed evaluation list.
    pub fn get_w_i(
        &self,
        layer_idx: usize,
        layer_evaluations: &[MultiLinearPolynomial],
    ) -> (res: Result<MultiLinearPolynomial, Error>)
        requires
            forall|j: int|
                0 <= j < layer_evaluations@.len() ==> (#[trigger] layer_evaluations@[j]).wf(),
        ensures
            res is Ok <==> layer_idx < layer_evaluations@.len(),
            res is Ok ==> res->Ok_0@ == layer_evaluations@[layer_evaluations@.len() - 1
                - layer_idx]@ && res->Ok_0.wf(),
            res is Err ==> res->Err_0 == Error::IndexOutOfBounds,
    {
        if layer_idx >= layer_evaluations.len() {
            return Err(Error::IndexOutOfBounds);
        }
        let pos = layer_evaluations.len() - 1 - layer_idx;
        let src = &layer_evaluations[pos];
        let pts = copy_elems(src.get_evaluation_points());
        proof {
            assert(vals(pts@) == src@);
        }
        match MultiLinearPolynomial::new(&pts) {
            Ok(q) => Ok(q),
            Err(_) => {
                proof {
                    assert(false);
                }
                Err(Error::IndexOutOfBounds)
            },
        }
    }

    /// The addition-selector polynomial of layer `layer_idx`.
    pub fn get_add_i(&self, layer_idx: usize) -> (res: Result<MultiLinearPolynomial, Error>)
        requires
            self.wf(),
        ensures
            res is Ok <==> layer_idx < self@.len(),
            res is Ok ==> res->Ok_0@ == selector(self@[layer_idx as int], true) && res->Ok_0.wf(),
            res is Err ==> res->Err_0 == Error::IndexOutOfBounds,
    {
        self.get_gate_poly(layer_idx, true)
    }

    /// The multiplication-selector polynomial of layer `layer_idx`.
    pub fn get_mul_i(&self, layer_idx: usize) -> (res: Result<MultiLinearPolynomial, Error>)
        requires
            self.wf(),
        ensures
            res is Ok <==> layer_idx < self@.len(),
            res is Ok ==> res->Ok_0@ == selector(self@[layer_idx as int], false) && res->Ok_0.wf(),
            res is Err ==> res->Err_0 == Error::IndexOutOfBounds,
    {
        self.get_gate_poly(layer_idx, false)
    }

    /// Builds the selector table for one layer and operation.
    fn get_gate_poly(&self, layer_idx: usize, is_add: bool) -> (res: Result<
        MultiLinearPolynomial,
        Error,
    >)
        requires
            self.wf(),
        ensures
            res is Ok <==> layer_idx < self@.len(),
            res is Ok ==> res->Ok_0@ == selector(self@[layer_idx as int], is_add)
                && res->Ok_0.wf(),
            res is Err ==> res->Err_0 == Error::IndexOutOfBounds,
    {
        if layer_idx >= self.layers.len() {
            return Err(Error::IndexOutOfBounds);
        }
        let ghost gv = self@[layer_idx as int];
        proof {
            assert(gv == self.layers@[layer_idx as int]@);
        }
        let gl = self.layers[layer_idx].len();
        let np = next_pow2(gl);
        let output_length = if np < 2 {
            2
        } else {
            np
        };
        proof {
            assert(output_length as nat == pad_len(gv.len()));
        }
        // the largest referenced wire index, plus one
        let mut m: usize = 0;
        let mut j: usize = 0;
        while j < gl
            invariant
                self.wf(),
                layer_idx < self@.len(),
                gv == self@[layer_idx as int],
                gl == gv.len(),
                j <= gl,
                m as nat == max_ref(gv.take(j as int)),
            decreases gl - j,
        {
            let g = self.layers[layer_idx][j];
            proof {
                assert(gv[j as int] == g);
                assert(gv.take(j + 1).drop_last() =~= gv.take(j as int));
                assert(gv.take(j + 1).last() == g);
                assert(max_ref(gv) <= usize::MAX / 2);
                lemma_max_ref_take(gv, j + 1);
            }
            let gm = if g.left >= g.right {
                g.left + 1
            } else {
                g.right + 1
            };
            if gm > m {
                m = gm;
            }
            j = j + 1;
        }
        proof {
            assert(gv.take(gl as int) =~= gv);
        }
        let npm = next_pow2(m);
        let b = log2(npm);
        let tb = pow2_usize(b);
        proof {
            assert(tb as nat == np2(max_ref(gv)));
            assert(b as nat == sel_b(gv));
            assert(pow2(2 * sel_b(gv)) == tb as nat * tb as nat) by {
                vstd::arithmetic::power2::lemma_pow2_adds(b as nat, b as nat);
            }
            assert(sel_len(gv) == output_length as nat * (tb as nat * tb as nat));
            assert(output_length as nat * (tb as nat * tb as nat) == (output_length as nat * tb
                as nat) * tb as nat) by (nonlinear_arith);
            assert((output_length as nat * tb as nat) * tb as nat <= usize::MAX);
            assert(output_length as nat * tb as nat <= usize::MAX) by (nonlinear_arith)
                requires
                    (output_length as nat * tb as nat) * tb as nat <= usize::MAX,
                    tb >= 1,
                    output_length as nat * tb as nat >= 0,
            ;
        }
        let half_total = output_length * tb;
        let total = half_total * tb;
        let mut out_vec: Vec<FieldElement> = Vec::new();
        let mut z: usize = 0;
        while z < total
            invariant
                z <= total,
                out_vec@.len() == z,
                forall|q: int| 0 <= q < z ==> (#[trigger] out_vec@[q])@ == 0,
            decreases total - z,
        {
            let v = fe_from_u64(0);
            out_vec.push(v);
            proof {
                assert(out_vec@[z as int] == v);
            }
            z = z + 1;
        }
        let one = fe_from_u64(1);
        let mut j2: usize = 0;
        while j2 < gl
            invariant
                self.wf(),
                layer_idx < self@.len(),
                gv == self@[layer_idx as int],
                gl == gv.len(),
                one@ == 1,
                tb as nat == np2(max_ref(gv)),
                b as nat == sel_b(gv),
                tb as nat == pow2(b as nat),
                output_length as nat == pad_len(gv.len()),
                total as nat == sel_len(gv),
                half_total == output_length * tb,
                total == half_total * tb,
                j2 <= gl,
                out_vec@.len() == total,
                forall|q: int|
                    0 <= q < total ==> (#[trigger] out_vec@[q])@ == (if sel_entry(
                        gv,
                        is_add,
                        q,
                        j2 as int,
                    ) {
                        1int
                    } else {
                        0int
                    }),
            decreases gl - j2,
        {
            let g = self.layers[layer_idx][j2];
            proof {
                assert(gv[j2 as int] == g);
            }
            let matches_op = match g.operation {
                Operation::Add => is_add,
                Operation::Mul => !is_add,
            };
            if matches_op {
                proof {
                    lemma_max_ref_bounds(gv, j2 as int);
                    lemma_np2_bounds(max_ref(gv));
                    // gate output index is below the padded output count
                    lemma_np2_bounds(gv.len());
                    assert((j2 as nat) < output_length as nat);
                    assert((g.left as nat) < tb as nat && (g.right as nat) < tb as nat);
                    assert((j2 as int) * (tb as int) + g.left < half_total) by (nonlinear_arith)
                        requires
                            (j2 as nat) < output_length as nat,
                            (g.left as nat) < tb as nat,
                            half_total == output_length * tb,
                    ;
                    assert(((j2 as int) * (tb as int) + g.left) * (tb as int) + g.right < total)
                        by (nonlinear_arith)
                        requires
                            (j2 as int) * (tb as int) + g.left < half_total,
                            (g.right as nat) < tb as nat,
                            total == half_total * tb,
                            tb >= 1,
                    ;
                }
                let idx = (j2 * tb + g.left) * tb + g.right;
                out_vec.set(idx, one);
                proof {
                    assert(idx as int == gate_index(gv, sel_b(gv), j2 as int));
                    assert(gate_matches(gv[j2 as int], is_add));
                    assert(sel_entry(gv, is_add, idx as int, j2 + 1));
                    assert forall|q: int|
                        0 <= q < total implies (#[trigger] out_vec@[q])@ == (if sel_entry(
                        gv,
                        is_add,
                        q,
                        j2 + 1,
                    ) {
                        1int
                    } else {
                        0int
                    }) by {
                        if q != idx as int {
                            if sel_entry(gv, is_add, q, j2 + 1) {
                                let w = choose|w: int|
                                    0 <= w < j2 + 1 && gate_matches(#[trigger] gv[w], is_add) && q
                                        == gate_index(gv, sel_b(gv), w);
                                assert(w < j2);
                                assert(sel_entry(gv, is_add, q, j2 as int));
                            }
                            if sel_entry(gv, is_add, q, j2 as int) {
                                let w = choose|w: int|
                                    0 <= w < j2 && gate_matches(#[trigger] gv[w], is_add) && q
                                        == gate_index(gv, sel_b(gv), w);
                                assert(sel_entry(gv, is_add, q, j2 + 1));
                            }
                        }
                    }
                }
            } else {
                proof {
                    assert forall|q: int|
                        0 <= q < total implies (#[trigger] out_vec@[q])@ == (if sel_entry(
                        gv,
                        is_add,
                        q,
                        j2 + 1,
                    ) {
                        1int
                    } else {
                        0int
                    }) by {
                        if sel_entry(gv, is_add, q, j2 + 1) {
                            let w = choose|w: int|
                                0 <= w < j2 + 1 && gate_matches(#[trigger] gv[w], is_add) && q
                                    == gate_index(gv, sel_b(gv), w);
                            assert(w != j2);
                            assert(sel_entry(gv, is_add, q, j2 as int));
                        }
                        if sel_entry(gv, is_add, q, j2 as int) {
                            let w = choose|w: int|
                                0 <= w < j2 && gate_matches(#[trigger] gv[w], is_add) && q
                                    == gate_index(gv, sel_b(gv), w);
                            assert(sel_entry(gv, is_add, q, j2 + 1));
                        }
                    }
                }
            }
            j2 = j2 + 1;
        }
        proof {
            assert forall|q: int|
                0 <= q < total implies vals(out_vec@)[q] == selector(gv, is_add)[q] by {
                assert(vals(out_vec@)[q] == out_vec@[q]@);
            }
            assert(vals(out_vec@) =~= selector(gv, is_add));
            // the selector length is a power of two
            lemma_np2_bounds(gv.len());
            lemma_pow2_lg(pad_len(gv.len()));
            vstd::arithmetic::power2::lemma_pow2_adds(lg(pad_len(gv.len())), 2 * sel_b(gv));
            lemma_lg_pow2(lg(pad_len(gv.len())) + 2 * sel_b(gv));
            assert(is_pow2(sel_len(gv)));
        }
        match MultiLinearPolynomial::new(&out_vec) {
            Ok(q) => Ok(q),
            Err(_) => {
                proof {
                    assert(false);
                }
                Err(Error::IndexOutOfBounds)
            },
        }
    }
}

/// The running maximum over a prefix never exceeds the whole, and any
/// gate's indices are below the whole layer's `max_ref`.
pub proof fn lemma_max_ref_take(gates: Seq<Gate>, j: int)
    requires
        0 <= j <= gates.len(),
    ensures
        max_ref(gates.take(j)) <= max_ref(gates),
    decreases gates.len() - j,
{
    if j < gates.len() {
        lemma_max_ref_take(gates, j + 1);
        assert(gates.take(j + 1).drop_last() =~= gates.take(j));
    } else {
        assert(gates.take(j) =~= gates);
    }
}

/// Each gate's wire indices are strictly below the layer's `max_ref`.
pub proof fn lemma_max_ref_bounds(gates: Seq<Gate>, j: int)
    requires
        0 <= j < gates.len(),
    ensures
        gates[j].left < max_ref(gates),
        gates[j].right < max_ref(gates),
    decreases gates.len(),
{
    if j == gates.len() - 1 {
    } else {
        lemma_max_ref_bounds(gates.drop_last(), j);
    }
}

} // verus!
