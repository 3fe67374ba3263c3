use rustmp::reduction::{merge_partials, op_apply, op_identity_value, ReduceOp};

#[test]
fn operators_compute_exact_values() {
    assert_eq!(op_apply(ReduceOp::Add, 7, 5), 12);
    assert_eq!(op_apply(ReduceOp::Mul, 7, 5), 35);
    assert_eq!(op_apply(ReduceOp::BitAnd, 0b1100, 0b1010), 0b1000);
    assert_eq!(op_apply(ReduceOp::BitOr, 0b1100, 0b1010), 0b1110);
    assert_eq!(op_apply(ReduceOp::BitXor, 0b1100, 0b1010), 0b0110);
}

#[test]
fn addition_and_multiplication_wrap() {
    assert_eq!(op_apply(ReduceOp::Add, u64::MAX, 1), 0);
    assert_eq!(op_apply(ReduceOp::Add, u64::MAX, 5), 4);
    assert_eq!(op_apply(ReduceOp::Mul, 1u64 << 63, 2), 0);
}

#[test]
fn identity_elements_change_nothing() {
    for op in [
        ReduceOp::Add,
        ReduceOp::Mul,
        ReduceOp::BitAnd,
        ReduceOp::BitOr,
        ReduceOp::BitXor,
    ] {
        let e = op_identity_value(op);
        assert_eq!(op_apply(op, e, 123456789), 123456789);
        assert_eq!(op_apply(op, 123456789, e), 123456789);
    }
}

#[test]
fn merge_folds_partials_in_order() {
    let partials = vec![1u64, 2, 3, 4];
    assert_eq!(merge_partials(ReduceOp::Add, 0, &partials), 10);
    assert_eq!(merge_partials(ReduceOp::Add, 5, &partials), 15);
    assert_eq!(merge_partials(ReduceOp::Mul, 1, &partials), 24);
    assert_eq!(merge_partials(ReduceOp::Mul, 2, &partials), 48);
}

#[test]
fn merge_of_no_partials_is_the_initial_value() {
    let partials: Vec<u64> = Vec::new();
    assert_eq!(merge_partials(ReduceOp::Add, 9, &partials), 9);
    assert_eq!(merge_partials(ReduceOp::Mul, 9, &partials), 9);
}

#[test]
fn boolean_style_reductions_on_zero_one_values() {
    let all_true = vec![1u64, 1, 1];
    let one_false = vec![1u64, 0, 1];
    assert_eq!(
        merge_partials(ReduceOp::BitAnd, op_identity_value(ReduceOp::BitAnd), &all_true) & 1,
        1
    );
    assert_eq!(
        merge_partials(ReduceOp::BitAnd, op_identity_value(ReduceOp::BitAnd), &one_false) & 1,
        0
    );
    assert_eq!(merge_partials(ReduceOp::BitOr, 0, &one_false), 1);
    assert_eq!(merge_partials(ReduceOp::BitOr, 0, &vec![0u64, 0]), 0);
}
