use novigrad::pairs::{pair_comes_first, transaction_precedes};
use novigrad::transaction::append_transactions;
use novigrad::{
    get_all_instruction_transactions, get_instruction_transactions,
    get_operand_transaction_pairs, group_by_operand, Access, Transaction,
};

fn read(instruction: usize, operand: usize) -> Transaction {
    Transaction { instruction, operand, access: Access::Read }
}

fn write(instruction: usize, operand: usize) -> Transaction {
    Transaction { instruction, operand, access: Access::Write }
}

#[test]
fn reads_come_before_writes() {
    assert_eq!(
        get_instruction_transactions(7, &[1, 2], &[3, 1]),
        vec![read(7, 1), read(7, 2), write(7, 3), write(7, 1)]
    );
    assert!(get_instruction_transactions(7, &[], &[]).is_empty());
}

#[test]
fn all_transactions_in_program_order() {
    let instructions = vec![(vec![], vec![5]), (vec![5], vec![6]), (vec![5, 6], vec![5])];
    assert_eq!(
        get_all_instruction_transactions(&instructions),
        vec![write(0, 5), read(1, 5), write(1, 6), read(2, 5), read(2, 6), write(2, 5)]
    );
    assert!(get_all_instruction_transactions(&[]).is_empty());
}

#[test]
fn appending_keeps_what_was_there() {
    let mut transactions = vec![read(0, 1)];
    append_transactions(&mut transactions, &vec![write(1, 1), read(2, 1)]);
    assert_eq!(transactions, vec![read(0, 1), write(1, 1), read(2, 1)]);
}

#[test]
fn transactions_by_operand() {
    let transactions = vec![write(0, 5), read(1, 5), write(1, 6), read(2, 5), read(2, 6)];
    let groups = group_by_operand(&transactions);
    assert_eq!(groups.len(), 2);
    assert_eq!(groups.get(&5), Some(&vec![write(0, 5), read(1, 5), read(2, 5)]));
    assert_eq!(groups.get(&6), Some(&vec![write(1, 6), read(2, 6)]));
    assert!(group_by_operand(&[]).is_empty());
}

#[test]
fn each_read_with_the_most_recent_write() {
    let transactions = vec![
        read(0, 5),
        write(1, 5),
        read(2, 5),
        write(3, 5),
        write(4, 6),
        read(5, 5),
        read(6, 5),
        read(7, 7),
    ];
    let pairs = get_operand_transaction_pairs(&Access::Read, &Access::Write, &transactions);
    assert_eq!(pairs.len(), 1);
    assert_eq!(
        pairs.get(&5),
        Some(&vec![
            (read(2, 5), write(1, 5)),
            (read(5, 5), write(3, 5)),
            (read(6, 5), write(3, 5)),
        ])
    );
    let pairs = get_operand_transaction_pairs(&Access::Write, &Access::Write, &transactions);
    assert_eq!(pairs.len(), 1);
    assert_eq!(pairs.get(&5), Some(&vec![(write(3, 5), write(1, 5))]));
    let pairs = get_operand_transaction_pairs(&Access::Write, &Access::Read, &transactions);
    assert_eq!(
        pairs.get(&5),
        Some(&vec![(write(1, 5), read(0, 5)), (write(3, 5), read(2, 5))])
    );
    let pairs = get_operand_transaction_pairs(&Access::Read, &Access::Read, &transactions);
    assert_eq!(
        pairs.get(&5),
        Some(&vec![
            (read(2, 5), read(0, 5)),
            (read(5, 5), read(2, 5)),
            (read(6, 5), read(5, 5)),
        ])
    );
}

#[test]
fn pairs_are_sorted_whatever_the_order_of_the_transactions() {
    let transactions = vec![write(9, 1), read(8, 1), read(3, 1), write(2, 1), read(7, 1)];
    let pairs = get_operand_transaction_pairs(&Access::Read, &Access::Write, &transactions);
    let mut expected =
        vec![(read(8, 1), write(9, 1)), (read(3, 1), write(9, 1)), (read(7, 1), write(2, 1))];
    expected.sort();
    assert_eq!(pairs.get(&1), Some(&expected));
    assert_eq!(
        expected,
        vec![(read(3, 1), write(9, 1)), (read(7, 1), write(2, 1)), (read(8, 1), write(9, 1))]
    );
}

#[test]
fn the_order_of_transactions_is_the_derived_order() {
    let samples = vec![
        read(0, 0),
        write(0, 0),
        read(0, 1),
        write(0, 1),
        read(1, 0),
        write(1, 0),
        read(2, 5),
    ];
    for a in samples.iter() {
        for b in samples.iter() {
            assert_eq!(transaction_precedes(a, b), a < b);
            for c in samples.iter() {
                assert_eq!(pair_comes_first(&(*a, *c), &(*b, *c)), (*a, *c) < (*b, *c));
                assert_eq!(pair_comes_first(&(*c, *a), &(*c, *b)), (*c, *a) < (*c, *b));
            }
        }
    }
}
