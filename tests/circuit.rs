use gkr::circuit::{
    arrange_gate_index, decimal_to_padded_binary, gate_index_combinations, Circuit, Gate, Layer,
    Op,
};
use gkr::error::GkrError;
use gkr::field::Fq;

fn to_field(input: Vec<u64>) -> Vec<Fq> {
    input.into_iter().map(Fq::from_u64).collect()
}

fn gate(op: char, left: usize, right: usize, output: usize) -> Gate {
    Gate::new(op, left, right, output).unwrap()
}

fn three_layer_circuit() -> Circuit {
    let inputs = to_field(vec![1, 2, 3, 4, 5, 6, 7, 8]);
    let gate_1 = gate('+', 0, 1, 0);
    let gate_2 = gate('*', 2, 3, 1);
    let gate_3 = gate('*', 4, 5, 2);
    let gate_4 = gate('*', 6, 7, 3);
    let gate_5 = gate('+', 0, 1, 0);
    let gate_6 = gate('*', 2, 3, 1);
    let gate_7 = gate('+', 0, 1, 0);
    let layer_0 = Layer::init(vec![gate_7]);
    let layer_1 = Layer::init(vec![gate_5, gate_6]);
    let layer_2 = Layer::init(vec![gate_1, gate_2, gate_3, gate_4]);
    Circuit::create(inputs, vec![layer_0, layer_1, layer_2])
}

fn one_hot(len: usize, at: usize) -> Vec<Fq> {
    let mut v = vec![Fq::zero(); len];
    v[at] = Fq::one();
    v
}

#[test]
fn lib_test_gate_index_combinations() {
    let index = gate_index_combinations(1);
    assert_eq!(index, 5);
}

#[test]
fn lib_test_arrange_gate_index() {
    let index = arrange_gate_index(1, 1, 2, 3).unwrap();
    let expected = usize::from_str_radix("11011", 2).unwrap_or(0);
    assert_eq!(index, expected);
}

#[test]
fn lib_test_decimal_to_padded_binary() {
    let binary = decimal_to_padded_binary(3, 4);
    assert_eq!(binary, "0011");
}

#[test]
fn circuit_test_gate_index_combinations() {
    let index = gate_index_combinations(1);
    assert_eq!(index, 5);
}

#[test]
fn circuit_test_arrange_gate_index() {
    let index = arrange_gate_index(1, 1, 2, 3).unwrap();
    let expected = usize::from_str_radix("11011", 2).unwrap_or(0);
    assert_eq!(index, expected);
}

#[test]
fn circuit_test_decimal_to_padded_binary() {
    let binary = decimal_to_padded_binary(3, 4);
    assert_eq!(binary, "0011");
}

#[test]
fn lib_test_add_i_n_mul_i_arrays() {
    let circuit = three_layer_circuit();
    let (add_i, mul_i) = circuit.add_i_n_mul_i_arrays(1).unwrap();
    let add_ones: Vec<String> = (0..add_i.coefficients.len())
        .filter(|i| add_i.coefficients[*i] == Fq::one())
        .map(|i| decimal_to_padded_binary(i, 5))
        .collect();
    let mul_ones: Vec<String> = (0..mul_i.coefficients.len())
        .filter(|i| mul_i.coefficients[*i] == Fq::one())
        .map(|i| decimal_to_padded_binary(i, 5))
        .collect();
    assert_eq!(add_ones, vec!["00001".to_string()]);
    assert_eq!(mul_ones, vec!["11011".to_string()]);
}

#[test]
fn circuit_test_add_i_n_mul_i_arrays() {
    let circuit = three_layer_circuit();
    let (add_i_poly, mul_i_poly) = circuit.add_i_n_mul_i_arrays(1).unwrap();
    assert_eq!(
        add_i_poly.coefficients,
        to_field(vec![
            0, 1, 0, 0, 0, 0, 0, 0, 0, 0, 0, 0, 0, 0, 0, 0, 0, 0, 0, 0, 0, 0, 0, 0, 0, 0, 0, 0, 0,
            0, 0, 0
        ])
    );
    assert_eq!(
        mul_i_poly.coefficients,
        to_field(vec![
            0, 0, 0, 0, 0, 0, 0, 0, 0, 0, 0, 0, 0, 0, 0, 0, 0, 0, 0, 0, 0, 0, 0, 0, 0, 0, 0, 1, 0,
            0, 0, 0
        ])
    );
}

#[test]
fn lib_test_gate_operate() {
    let inputs = to_field(vec![1, 2]);
    let add_gate = gate('+', 0, 1, 0);
    let mul_gate = gate('*', 0, 1, 1);
    assert_eq!(add_gate.operate(&inputs).unwrap(), Fq::from_u64(3));
    assert_eq!(mul_gate.operate(&inputs).unwrap(), Fq::from_u64(2));
}

#[test]
fn circuit_test_gate_operate() {
    let inputs = to_field(vec![1, 2]);
    let add_gate = gate('+', 0, 1, 0);
    let mul_gate = gate('*', 0, 1, 1);
    let add_output = add_gate.operate(&inputs).unwrap();
    let mul_output = mul_gate.operate(&inputs).unwrap();
    assert_eq!(add_output, Fq::from_u64(3));
    assert_eq!(mul_output, Fq::from_u64(2));
}

#[test]
fn lib_test_layer_compute() {
    let inputs = to_field(vec![1, 2, 3, 4]);
    let layer = Layer::init(vec![gate('+', 0, 1, 0), gate('*', 2, 3, 0)]);
    assert_eq!(layer.compute(&inputs).unwrap(), to_field(vec![3, 12]));
}

#[test]
fn circuit_test_layer_compute() {
    let inputs = to_field(vec![1, 2, 3, 4]);
    let add_gate = gate('+', 0, 1, 0);
    let mul_gate = gate('*', 2, 3, 0);
    let layer = Layer::init(vec![add_gate, mul_gate]);
    let outputs = layer.compute(&inputs).unwrap();
    assert_eq!(outputs, to_field(vec![3, 12]));
}

fn two_layer_circuit() -> Circuit {
    let inputs = to_field(vec![1, 2, 3, 4]);
    let gate_1 = gate('+', 0, 1, 0);
    let gate_2 = gate('*', 2, 3, 1);
    let gate_3 = gate('+', 0, 1, 0);
    let layer_0 = Layer::init(vec![gate_3]);
    let layer_1 = Layer::init(vec![gate_1, gate_2]);
    Circuit::create(inputs, vec![layer_0, layer_1])
}

#[test]
fn lib_test_circuit_execute() {
    let mut circuit = two_layer_circuit();
    let circuit_eval = circuit.execute().unwrap();
    assert_eq!(circuit_eval, vec![to_field(vec![15]), to_field(vec![3, 12])]);
}

#[test]
fn circuit_test_circuit_execute() {
    let mut circuit = two_layer_circuit();
    let circuit_eval = circuit.execute().unwrap();
    assert_eq!(circuit_eval, vec![to_field(vec![15]), to_field(vec![3, 12])]);
}

#[test]
fn lib_test_circuit_execute_2() {
    let mut circuit = three_layer_circuit();
    let circuit_eval = circuit.execute().unwrap();
    assert_eq!(
        circuit_eval,
        vec![
            to_field(vec![1695]),
            to_field(vec![15, 1680]),
            to_field(vec![3, 12, 30, 56])
        ]
    );
}

#[test]
fn circuit_test_circuit_execute_2() {
    let mut circuit = three_layer_circuit();
    let circuit_eval = circuit.execute().unwrap();
    assert_eq!(
        circuit_eval,
        vec![
            to_field(vec![1695]),
            to_field(vec![15, 1680]),
            to_field(vec![3, 12, 30, 56])
        ]
    );
}

#[test]
fn test_w_i_polynomial() {
    let mut circuit = three_layer_circuit();
    circuit.execute().unwrap();
    let w_i = circuit.w_i_polynomial(1).unwrap();
    assert_eq!(w_i.coefficients, to_field(vec![15, 1680]));
}

#[test]
fn test_f_b_c() {
    let mut circuit = three_layer_circuit();
    circuit.execute().unwrap();
    // Layer 2 has two output bits, so one coordinate is the wrong arity.
    assert_eq!(circuit.f_b_c(2, &to_field(vec![5])).unwrap_err(), GkrError::InvalidArity);
    let f_b_c = circuit.f_b_c(2, &to_field(vec![5, 7])).unwrap();
    assert_eq!(f_b_c.product_polys.len(), 2);
    assert_eq!(f_b_c.product_polys[0].poly_coefficients[0].coefficients.len(), 64);
    assert_eq!(f_b_c.product_polys[0].poly_coefficients[1].coefficients.len(), 64);
}

#[test]
fn execute_yields_outputs_output_layer_first() {
    let mut circuit = two_layer_circuit();
    assert_eq!(
        circuit.execute().unwrap(),
        vec![to_field(vec![15]), to_field(vec![3, 12])]
    );
    // Running again replaces the stored outputs instead of adding to them.
    circuit.execute().unwrap();
    assert_eq!(circuit.outputs.len(), 2);
}

#[test]
fn wiring_predicates_for_layer_one() {
    let circuit = two_layer_circuit();
    let layer = Layer::init(vec![gate('+', 0, 1, 0), gate('*', 2, 3, 1)]);
    let c = Circuit::create(to_field(vec![1, 2, 3, 4]), vec![circuit.layers[0].clone(), layer]);
    let (add_i, mul_i) = c.add_i_n_mul_i_arrays(1).unwrap();
    assert_eq!(add_i.coefficients, one_hot(32, 0b00001));
    assert_eq!(mul_i.coefficients, one_hot(32, 0b11011));
}

#[test]
fn layer_zero_uses_three_index_bits() {
    let circuit = two_layer_circuit();
    assert_eq!(gate_index_combinations(0), 3);
    let (add_i, mul_i) = circuit.add_i_n_mul_i_arrays(0).unwrap();
    assert_eq!(add_i.coefficients, one_hot(8, 0b001));
    assert_eq!(mul_i.coefficients, vec![Fq::zero(); 8]);
}

#[test]
fn unknown_operation_tag_is_invalid_wiring() {
    assert_eq!(Gate::new('-', 0, 1, 0).unwrap_err(), GkrError::InvalidWiring);
    assert_eq!(gate('*', 0, 1, 0).op, Op::Mul);
}

#[test]
fn out_of_range_gate_is_invalid_wiring() {
    let inputs = to_field(vec![1, 2]);
    assert_eq!(gate('+', 0, 2, 0).operate(&inputs).unwrap_err(), GkrError::InvalidWiring);
    let layer = Layer::init(vec![gate('+', 0, 1, 0), gate('*', 5, 1, 1)]);
    assert_eq!(layer.compute(&inputs).unwrap_err(), GkrError::InvalidWiring);
    let mut circuit = Circuit::create(inputs, vec![layer]);
    assert_eq!(circuit.execute().unwrap_err(), GkrError::InvalidWiring);
}

#[test]
fn w_i_polynomial_pads_and_checks_range() {
    let mut circuit = two_layer_circuit();
    circuit.execute().unwrap();
    assert_eq!(circuit.w_i_polynomial(0).unwrap().coefficients, to_field(vec![15, 0]));
    assert_eq!(circuit.w_i_polynomial(2).unwrap().coefficients, to_field(vec![1, 2, 3, 4]));
    assert_eq!(circuit.w_i_polynomial(3).unwrap_err(), GkrError::InvalidWiring);
}

#[test]
fn wiring_rejects_missing_layer_and_wide_fields() {
    let circuit = two_layer_circuit();
    assert_eq!(circuit.add_i_n_mul_i_arrays(2).unwrap_err(), GkrError::InvalidWiring);
    let wide = Circuit::create(to_field(vec![1, 2, 3, 4]), vec![Layer::init(vec![gate('+', 0, 4, 0)])]);
    assert_eq!(wide.add_i_n_mul_i_arrays(0).unwrap_err(), GkrError::InvalidWiring);
}

#[test]
fn padded_binary_keeps_wide_values() {
    assert_eq!(decimal_to_padded_binary(0, 0), "0");
    assert_eq!(decimal_to_padded_binary(5, 2), "101");
    assert_eq!(decimal_to_padded_binary(1, 3), "001");
}

#[test]
fn arrange_gate_index_rejects_wide_fields() {
    assert_eq!(arrange_gate_index(1, 2, 0, 0).unwrap_err(), GkrError::InvalidWiring);
    assert_eq!(arrange_gate_index(1, 0, 4, 0).unwrap_err(), GkrError::InvalidWiring);
    assert_eq!(arrange_gate_index(0, 2, 0, 0).unwrap_err(), GkrError::InvalidWiring);
    assert_eq!(arrange_gate_index(0, 1, 1, 1), Ok(7));
    // 3 * 30 + 2 bits is more than a 64-bit index holds.
    assert_eq!(arrange_gate_index(30, 0, 0, 0).unwrap_err(), GkrError::InvalidWiring);
    assert_eq!(gate_index_combinations(20), 62);
}
