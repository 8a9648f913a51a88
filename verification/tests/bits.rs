use qsim::bits::{index_is_zero, stride};

#[test]
fn qubit_zero_is_the_most_significant_bit() {
    // Three qubits: qubit 0 has stride 4, qubit 2 has stride 1.
    assert_eq!(stride(3, 0), 4);
    assert_eq!(stride(3, 1), 2);
    assert_eq!(stride(3, 2), 1);
    let zero_for_qubit_0: Vec<bool> = (0..8).map(|i| index_is_zero(3, 0, i)).collect();
    assert_eq!(zero_for_qubit_0, vec![true, true, true, true, false, false, false, false]);
    let zero_for_qubit_2: Vec<bool> = (0..8).map(|i| index_is_zero(3, 2, i)).collect();
    assert_eq!(zero_for_qubit_2, vec![true, false, true, false, true, false, true, false]);
}

#[test]
fn index_is_zero_reads_the_bit_of_the_stride() {
    for index in 0..64usize {
        for target in 0..6 {
            let bit = (index >> (6 - target - 1)) & 1;
            assert_eq!(index_is_zero(6, target, index), bit == 0);
        }
    }
}
