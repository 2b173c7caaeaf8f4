use crate::error::GkrError;
use crate::field::{fadd, fmul, Fq};
use crate::mle::{lemma_pow2_add, lemma_pow2_gt, lemma_pow2_pos, pow2, vals, MultilinearPolynomial};
use vstd::prelude::*;
use vstd::string::*;

verus! {

/// What a gate does with its two inputs.
#[derive(Clone, Copy, Debug, PartialEq, Eq, Structural)]
pub enum Op {
    Add,
    Mul,
}

/// A gate reading positions `left` and `right` of its layer's input vector
/// and writing position `output` of the layer's output.
#[derive(Clone, Copy, Debug, PartialEq, Eq, Structural)]
pub struct Gate {
    pub op: Op,
    pub left: usize,
    pub right: usize,
    pub output: usize,
}

pub open spec fn op_of_tag(tag: char) -> Option<Op> {
    if tag == '+' {
        Some(Op::Add)
    } else if tag == '*' {
        Some(Op::Mul)
    } else {
        None
    }
}

pub open spec fn gate_value(g: Gate, input: Seq<int>) -> int {
    match g.op {
        Op::Add => fadd(input[g.left as int], input[g.right as int]),
        Op::Mul => fmul(input[g.left as int], input[g.right as int]),
    }
}

/// Every gate reads inside an input vector of length `len`.
pub open spec fn wired(gates: Seq<Gate>, len: nat) -> bool {
    forall|k: int| 0 <= k < gates.len() ==> (#[trigger] gates[k]).left < len && gates[k].right < len
}

pub open spec fn layer_values(gates: Seq<Gate>, input: Seq<int>) -> Seq<int> {
    Seq::new(gates.len(), |k: int| gate_value(gates[k], input))
}

/// The output of layer `i`, computed from the inputs up through the deeper
/// layers; `None` if a gate on the way reads out of range.
pub open spec fn run_from(layers: Seq<Seq<Gate>>, inputs: Seq<int>, i: int) -> Option<Seq<int>>
    decreases layers.len() - i,
{
    if i >= layers.len() {
        Some(inputs)
    } else if i < 0 {
        None
    } else {
        match run_from(layers, inputs, i + 1) {
            None => None,
            Some(below) => if wired(layers[i], below.len()) {
                Some(layer_values(layers[i], below))
            } else {
                None
            },
        }
    }
}

impl Gate {
    /// A gate from an operation tag, `'+'` or `'*'`; any other tag is a
    /// wiring error.
    pub fn new(op: char, left: usize, right: usize, output: usize) -> (r: Result<Gate, GkrError>)
        ensures
            match op_of_tag(op) {
                Some(o) => r == Ok::<Gate, GkrError>(Gate { op: o, left, right, output }),
                None => r == Err::<Gate, GkrError>(GkrError::InvalidWiring),
            },
    {
        if op == '+' {
            Ok(Gate { op: Op::Add, left, right, output })
        } else if op == '*' {
            Ok(Gate { op: Op::Mul, left, right, output })
        } else {
            Err(GkrError::InvalidWiring)
        }
    }

    /// Adds or multiplies the two inputs at positions `left` and `right`.
    pub fn operate(&self, inputs: &Vec<Fq>) -> (r: Result<Fq, GkrError>)
        ensures
            match r {
                Ok(v) => self.left < inputs@.len() && self.right < inputs@.len() && v.val()
                    == gate_value(*self, vals(inputs@)),
                Err(e) => e == GkrError::InvalidWiring && !(self.left < inputs@.len()
                    && self.right < inputs@.len()),
            },
    {
        if self.left >= inputs.len() || self.right >= inputs.len() {
            return Err(GkrError::InvalidWiring);
        }
        let a = inputs[self.left];
        let b = inputs[self.right];
        match self.op {
            Op::Add => Ok(a.add(&b)),
            Op::Mul => Ok(a.mul(&b)),
        }
    }
}

/// Gates that share one input vector.
#[derive(Clone, Debug)]
pub struct Layer {
    pub gates: Vec<Gate>,
}

impl Layer {
    pub fn init(gates: Vec<Gate>) -> (r: Layer)
        ensures
            r.gates@ == gates@,
    {
        Layer { gates }
    }

    /// Position `k` of the output holds gate `k`'s value.
    pub fn compute(&self, inputs: &Vec<Fq>) -> (r: Result<Vec<Fq>, GkrError>)
        ensures
            match r {
                Ok(out) => wired(self.gates@, inputs@.len()) && vals(out@) == layer_values(
                    self.gates@,
                    vals(inputs@),
                ),
                Err(e) => e == GkrError::InvalidWiring && !wired(self.gates@, inputs@.len()),
            },
    {
        let mut out: Vec<Fq> = Vec::new();
        let mut k: usize = 0;
        while k < self.gates.len()
            invariant
                k <= self.gates@.len(),
                out@.len() == k,
                wired(self.gates@.subrange(0, k as int), inputs@.len()),
                forall|x: int| 0 <= x < k ==> (#[trigger] out@[x]).val() == gate_value(self.gates@[x], vals(inputs@)),
            decreases self.gates@.len() - k,
        {
            match self.gates[k].operate(inputs) {
                Ok(v) => {
                    out.push(v);
                },
                Err(e) => {
                    proof {
                        assert(!wired(self.gates@, inputs@.len())) by {
                            assert(self.gates@[k as int] == self.gates[k as int]);
                        }
                    }
                    return Err(e);
                },
            }
            k = k + 1;
            proof {
                assert forall|x: int| 0 <= x < k implies (#[trigger] self.gates@.subrange(0, k as int)[x]).left < inputs@.len()
                    && self.gates@.subrange(0, k as int)[x].right < inputs@.len() by {
                    if x < k - 1 {
                        assert(self.gates@.subrange(0, k as int)[x] == self.gates@.subrange(0, k - 1)[x]);
                    }
                }
            }
        }
        assert(self.gates@.subrange(0, k as int) =~= self.gates@);
        assert(vals(out@) =~= layer_values(self.gates@, vals(inputs@)));
        Ok(out)
    }
}

pub open spec fn layer_gates(layers: Seq<Layer>) -> Seq<Seq<Gate>> {
    layers.map_values(|l: Layer| l.gates@)
}

/// A layered circuit. Layer 0 is the output layer; layer `i` reads the
/// output of layer `i + 1`, and the deepest layer reads the inputs.
#[derive(Clone, Debug)]
pub struct Circuit {
    pub inputs: Vec<Fq>,
    pub layers: Vec<Layer>,
    pub outputs: Vec<Vec<Fq>>,
}

pub open spec fn outputs_of(outs: Seq<Vec<Fq>>) -> Seq<Seq<int>> {
    outs.map_values(|v: Vec<Fq>| vals(v@))
}

/// A length-1 table is padded with a zero to length 2.
pub open spec fn padded(t: Seq<int>) -> Seq<int> {
    if t.len() == 1 {
        t.push(0)
    } else {
        t
    }
}

impl Circuit {
    pub open spec fn gates(&self) -> Seq<Seq<Gate>> {
        layer_gates(self.layers@)
    }

    /// The layer outputs that an execution yields, output layer first.
    pub open spec fn executed(&self, outs: Seq<Seq<int>>) -> bool {
        &&& outs.len() == self.layers@.len()
        &&& forall|i: int|
            0 <= i < outs.len() ==> run_from(self.gates(), vals(self.inputs@), i) == Some(
                #[trigger] outs[i],
            )
    }

    pub fn create(inputs: Vec<Fq>, layers: Vec<Layer>) -> (r: Circuit)
        ensures
            r.inputs@ == inputs@,
            r.layers@ == layers@,
            r.outputs@.len() == 0,
    {
        Circuit { inputs, layers, outputs: Vec::new() }
    }

    /// Computes every layer's output from the inputs up, stores them (in
    /// place of any earlier ones) and returns them, output layer first.
    pub fn execute(&mut self) -> (r: Result<Vec<Vec<Fq>>, GkrError>)
        ensures
            final(self).inputs == old(self).inputs,
            final(self).layers == old(self).layers,
            match r {
                Ok(outs) => final(self).executed(outputs_of(outs@)) && outputs_of(
                    final(self).outputs@,
                ) == outputs_of(outs@),
                Err(e) => e == GkrError::InvalidWiring && run_from(
                    old(self).gates(),
                    vals(old(self).inputs@),
                    0,
                ) is None && final(self).outputs@.len() == 0,
            },
    {
        self.outputs = Vec::new();
        let ghost ls = self.gates();
        let ghost ins = vals(self.inputs@);
        let depth = self.layers.len();
        let mut outs: Vec<Vec<Fq>> = Vec::new();
        let mut cur = self.inputs.clone();
        let mut i: usize = depth;
        assert(cur@ == self.inputs@);
        while i > 0
            invariant
                i <= depth,
                self.inputs == old(self).inputs,
                self.layers == old(self).layers,
                depth == self.layers@.len(),
                ls == self.gates(),
                ins == vals(self.inputs@),
                self.outputs@.len() == 0,
                outs@.len() == depth - i,
                run_from(ls, ins, i as int) == Some(vals(cur@)),
                forall|j: int|
                    0 <= j < outs@.len() ==> run_from(ls, ins, i + j) == Some(
                        #[trigger] vals(outs@[j]@),
                    ),
            decreases i,
        {
            let layer = &self.layers[i - 1];
            assert(ls[i - 1] == layer.gates@);
            match layer.compute(&cur) {
                Ok(next) => {
                    let ghost prev = outs@;
                    outs.insert(0, next.clone());
                    cur = next;
                    proof {
                        assert forall|j: int| 0 <= j < outs@.len() implies run_from(ls, ins, i - 1 + j) == Some(
                            #[trigger] vals(outs@[j]@),
                        ) by {
                            if j > 0 {
                                assert(outs@[j] == prev[j - 1]);
                                assert(i - 1 + j == i + (j - 1));
                            }
                        }
                    }
                },
                Err(e) => {
                    proof {
                        lemma_run_none_above(ls, ins, i - 1);
                    }
                    return Err(e);
                },
            }
            i = i - 1;
        }
        self.outputs = copy_rows(&outs);
        proof {
            assert(outputs_of(outs@).len() == outs@.len());
            assert forall|j: int| 0 <= j < outs@.len() implies run_from(ls, ins, j) == Some(
                #[trigger] outputs_of(outs@)[j],
            ) by {
                assert(run_from(ls, ins, 0 + j) == Some(vals(outs@[j]@)));
            }
        }
        Ok(outs)
    }

    /// The multilinear polynomial of layer `layer_index`'s stored output, or
    /// of the inputs when `layer_index` is the depth; a length-1 table is
    /// padded to length 2.
    pub fn w_i_polynomial(&self, layer_index: usize) -> (r: Result<MultilinearPolynomial, GkrError>)
        ensures
            match r {
                Ok(m) => layer_index <= self.outputs@.len() && m.table() == padded(
                    if layer_index == self.outputs@.len() {
                        vals(self.inputs@)
                    } else {
                        vals(self.outputs@[layer_index as int]@)
                    },
                ),
                Err(e) => e == GkrError::InvalidWiring && layer_index > self.outputs@.len(),
            },
    {
        if layer_index > self.outputs.len() {
            return Err(GkrError::InvalidWiring);
        }
        let mut t = if layer_index == self.outputs.len() {
            self.inputs.clone()
        } else {
            self.outputs[layer_index].clone()
        };
        if t.len() == 1 {
            t.push(Fq::zero());
        }
        let m = MultilinearPolynomial::new(t);
        assert(m.table() =~= padded(
            if layer_index == self.outputs@.len() {
                vals(self.inputs@)
            } else {
                vals(self.outputs@[layer_index as int]@)
            },
        ));
        Ok(m)
    }
}

/// A copy of a list of vectors.
fn copy_rows(v: &Vec<Vec<Fq>>) -> (r: Vec<Vec<Fq>>)
    ensures
        outputs_of(r@) == outputs_of(v@),
{
    let mut out: Vec<Vec<Fq>> = Vec::new();
    let mut i: usize = 0;
    while i < v.len()
        invariant
            i <= v@.len(),
            out@.len() == i,
            forall|j: int| 0 <= j < i ==> (#[trigger] out@[j])@ == v@[j]@,
        decreases v@.len() - i,
    {
        out.push(v[i].clone());
        i = i + 1;
    }
    assert(outputs_of(out@) =~= outputs_of(v@));
    out
}

/// A failing layer fails every layer above it.
proof fn lemma_run_none_above(ls: Seq<Seq<Gate>>, ins: Seq<int>, i: int)
    requires
        0 <= i,
        run_from(ls, ins, i) is None,
    ensures
        run_from(ls, ins, 0) is None,
    decreases i,
{
    if i > 0 {
        lemma_run_none_above(ls, ins, i - 1);
    }
}

/// The width of the output field of a wiring index.
pub open spec fn output_bits(layer_index: nat) -> nat {
    if layer_index == 0 {
        1
    } else {
        layer_index
    }
}

/// The number of index bits of a layer's wiring predicates: the output
/// field, then the left and the right field of `layer_index + 1` bits each
/// (three in all for layer 0).
pub fn gate_index_combinations(layer_index: usize) -> (r: usize)
    requires
        3 * layer_index + 2 <= usize::MAX,
    ensures
        r == output_bits(layer_index as nat) + 2 * (layer_index + 1),
{
    if layer_index == 0 {
        return 3;
    }
    let a = layer_index;
    let b = layer_index + 1;
    let c = layer_index + 1;
    a + b + c
}

/// The flat wiring index: the `output`, `left` and `right` bit fields in that
/// order, the left and right fields `layer_index + 1` bits wide.
pub open spec fn wiring_index(layer_index: nat, output: nat, left: nat, right: nat) -> nat {
    output * pow2((2 * (layer_index + 1)) as nat) + left * pow2(layer_index + 1) + right
}

/// Each field fits its width.
pub open spec fn fits(layer_index: nat, output: nat, left: nat, right: nat) -> bool {
    &&& output < pow2(output_bits(layer_index))
    &&& left < pow2(layer_index + 1)
    &&& right < pow2(layer_index + 1)
}

/// `2^k`, or `None` when it does not fit in `usize`.
fn checked_pow2(k: usize) -> (r: Option<usize>)
    ensures
        match r {
            Some(p) => p == pow2(k as nat),
            None => pow2(k as nat) > usize::MAX,
        },
{
    let mut p: usize = 1;
    let mut i: usize = 0;
    while i < k
        invariant
            i <= k,
            p == pow2(i as nat),
        decreases k - i,
    {
        match p.checked_mul(2) {
            Some(q) => {
                p = q;
            },
            None => {
                proof {
                    lemma_pow2_mono((i + 1) as nat, k as nat);
                }
                return None;
            },
        }
        i = i + 1;
    }
    Some(p)
}

/// The flat wiring index of a gate of layer `layer_index`; `InvalidWiring`
/// when a field does not fit its width, or when the index space of
/// `gate_index_combinations(layer_index)` bits does not fit in `usize`.
pub fn arrange_gate_index(layer_index: usize, output: usize, left_index: usize, right_index: usize) -> (r: Result<usize, GkrError>)
    ensures
        match r {
            Ok(i) => fits(layer_index as nat, output as nat, left_index as nat, right_index as nat)
                && i == wiring_index(layer_index as nat, output as nat, left_index as nat, right_index as nat)
                && i < pow2((output_bits(layer_index as nat) + 2 * (layer_index + 1)) as nat),
            Err(e) => e == GkrError::InvalidWiring && (!fits(
                layer_index as nat,
                output as nat,
                left_index as nat,
                right_index as nat,
            ) || pow2((output_bits(layer_index as nat) + 2 * (layer_index + 1)) as nat) > usize::MAX),
        },
{
    let ghost l = layer_index as nat;
    let ghost e = (output_bits(l) + 2 * (l + 1)) as nat;
    if layer_index > (usize::MAX - 2) / 3 {
        proof {
            lemma_pow2_gt(e);
        }
        return Err(GkrError::InvalidWiring);
    }
    let bits = gate_index_combinations(layer_index);
    let space = match checked_pow2(bits) {
        Some(p) => p,
        None => {
            return Err(GkrError::InvalidWiring);
        },
    };
    let ob = if layer_index == 0 {
        1
    } else {
        layer_index
    };
    proof {
        lemma_pow2_add(output_bits(l), (2 * (l + 1)) as nat);
        lemma_pow2_add(l + 1, l + 1);
        assert((l + 1 + (l + 1)) as nat == (2 * (l + 1)) as nat);
        lemma_pow2_pos(output_bits(l));
        lemma_pow2_pos(l + 1);
        let s = pow2(l + 1);
        let o = pow2(output_bits(l));
        assert(o * (s * s) == pow2(e));
        assert(s <= o * (s * s) && o <= o * (s * s)) by (nonlinear_arith)
            requires
                o >= 1,
                s >= 1,
        ;
    }
    let side = match checked_pow2(layer_index + 1) {
        Some(p) => p,
        None => {
            return Err(GkrError::InvalidWiring);
        },
    };
    let out_cap = match checked_pow2(ob) {
        Some(p) => p,
        None => {
            return Err(GkrError::InvalidWiring);
        },
    };
    if output >= out_cap || left_index >= side || right_index >= side {
        return Err(GkrError::InvalidWiring);
    }
    proof {
        let s = pow2(l + 1);
        let o = pow2(output_bits(l));
        assert(left_index * s + right_index < s * s) by (nonlinear_arith)
            requires
                left_index < s,
                right_index < s,
        ;
        assert(output * (s * s) + (s * s) <= o * (s * s)) by (nonlinear_arith)
            requires
                output + 1 <= o,
        ;
        assert(output * (s * s) >= 0) by (nonlinear_arith);
        assert(left_index * s >= 0) by (nonlinear_arith);
        assert(s * s <= o * (s * s)) by (nonlinear_arith)
            requires
                o >= 1,
        ;
        assert(output * (s * s) + left_index * s + right_index < space);
    }
    let block = side * side;
    Ok(output * block + left_index * side + right_index)
}

pub proof fn lemma_pow2_mono(a: nat, b: nat)
    requires
        a <= b,
    ensures
        pow2(a) <= pow2(b),
    decreases b,
{
    if a < b {
        lemma_pow2_mono(a, (b - 1) as nat);
        lemma_pow2_pos((b - 1) as nat);
    }
}

pub proof fn lemma_pow2_small()
    ensures
        pow2(1) == 2,
        pow2(9) == 0x200,
        pow2(31) == 0x8000_0000,
{
    reveal_with_fuel(pow2, 32);
}

pub open spec fn binary_digit(bit: int) -> char {
    if bit == 1 {
        '1'
    } else {
        '0'
    }
}

/// The binary digits of `n`, most significant first, padded with zeros to at
/// least `width` digits.
pub open spec fn padded_binary(n: nat, width: nat) -> Seq<char>
    decreases n + width,
{
    if n < 2 && width <= 1 {
        seq![binary_digit(n as int)]
    } else {
        padded_binary(
            n / 2,
            if width > 0 {
                (width - 1) as nat
            } else {
                0
            },
        ).push(binary_digit((n % 2) as int))
    }
}

pub fn decimal_to_padded_binary(n: usize, bit_length: usize) -> (r: String)
    ensures
        r@ == padded_binary(n as nat, bit_length as nat),
    decreases n + bit_length,
{
    proof {
        reveal_strlit("0");
        reveal_strlit("1");
    }
    if n < 2 && bit_length <= 1 {
        if n == 1 {
            String::from_str("1")
        } else {
            String::from_str("0")
        }
    } else {
        let w = if bit_length > 0 {
            bit_length - 1
        } else {
            0
        };
        let mut s = decimal_to_padded_binary(n / 2, w);
        if n % 2 == 1 {
            s.append("1");
        } else {
            s.append("0");
        }
        s
    }
}

} // verus!
