use requery::Op;
use requery::eval_vec;

#[test]
fn sums_products_and_minimum() {
    assert_eq!(eval_vec(Op::Sum, &vec![1, 2, 3]), 6);
    assert_eq!(eval_vec(Op::Product, &vec![2, 3, 4]), 24);
    assert_eq!(eval_vec(Op::Min, &vec![9, 4, 7]), 4);
}

#[test]
fn empty_lists_fold_to_the_unit() {
    assert_eq!(eval_vec(Op::Sum, &Vec::new()), 0);
    assert_eq!(eval_vec(Op::Product, &Vec::new()), 1);
    assert_eq!(eval_vec(Op::Min, &Vec::new()), u64::MAX);
}

#[test]
fn arithmetic_wraps_on_overflow() {
    assert_eq!(eval_vec(Op::Sum, &vec![u64::MAX, 1]), 0);
    assert_eq!(eval_vec(Op::Sum, &vec![u64::MAX, 5]), 4);
    assert_eq!(eval_vec(Op::Product, &vec![1u64 << 63, 2]), 0);
    assert_eq!(eval_vec(Op::Product, &vec![u64::MAX, 2]), u64::MAX - 1);
}
