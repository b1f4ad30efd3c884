//! Which access followed which: for the accesses of one kind, the most
//! recent earlier access of another kind to the same operand.
//!
//! A run keeps the order of a program where these pairs are the same for
//! reads after writes, for writes after writes and for writes after reads.

use crate::dependencies::Access;
use crate::transaction::Transaction;
use std::collections::BTreeMap;
use vstd::prelude::*;

verus! {

/// A later access with the earlier access that it followed.
pub type Pair = (Transaction, Transaction);

/// The place of a kind of access in the order of accesses.
pub open spec fn rank(access: Access) -> int {
    match access {
        Access::Read => 0,
        Access::Write => 1,
    }
}

/// Whether `a` comes before `b` in the order of transactions: by
/// instruction, then by operand, then reads before writes.
pub open spec fn precedes(a: Transaction, b: Transaction) -> bool {
    ||| a.instruction < b.instruction
    ||| a.instruction == b.instruction && a.operand < b.operand
    ||| a.instruction == b.instruction && a.operand == b.operand && rank(a.access) < rank(b.access)
}

/// Whether `p` comes before `q` in the order of pairs: by the later access,
/// then by the earlier one.
pub open spec fn pair_precedes(p: Pair, q: Pair) -> bool {
    precedes(p.0, q.0) || (p.0 == q.0 && precedes(p.1, q.1))
}

/// Whether no pair of `list` comes before a pair that stands before it.
pub open spec fn sorted(list: Seq<Pair>) -> bool {
    forall|a: int, b: int| 0 <= a < b < list.len() ==> !pair_precedes(list[b], list[a])
}

/// The last of the first `upto` transactions that accesses `operand` in the
/// given way, if there is one.
pub open spec fn last_access(
    transactions: Seq<Transaction>,
    upto: int,
    operand: usize,
    access: Access,
) -> Option<int>
    decreases upto,
{
    if upto <= 0 {
        None
    } else if transactions[upto - 1].operand == operand && transactions[upto - 1].access == access {
        Some(upto - 1)
    } else {
        last_access(transactions, upto - 1, operand, access)
    }
}

/// The pairs of `operand` among the first `upto` transactions: each access
/// of kind `access` to the operand that follows an access of kind
/// `prior_access` to it, with the most recent such access; in the order of
/// the later accesses.
pub open spec fn pairs_of(
    transactions: Seq<Transaction>,
    access: Access,
    prior_access: Access,
    operand: usize,
    upto: int,
) -> Seq<Pair>
    decreases upto,
{
    if upto <= 0 {
        Seq::empty()
    } else {
        let before = pairs_of(transactions, access, prior_access, operand, upto - 1);
        let later = transactions[upto - 1];
        if later.operand == operand && later.access == access {
            match last_access(transactions, upto - 1, operand, prior_access) {
                Some(earlier) => before.push((later, transactions[earlier])),
                None => before,
            }
        } else {
            before
        }
    }
}

/// The transactions of `operand` among the first `upto`, in their order.
pub open spec fn of_operand(transactions: Seq<Transaction>, operand: usize, upto: int) -> Seq<
    Transaction,
>
    decreases upto,
{
    if upto <= 0 {
        Seq::empty()
    } else if transactions[upto - 1].operand == operand {
        of_operand(transactions, operand, upto - 1).push(transactions[upto - 1])
    } else {
        of_operand(transactions, operand, upto - 1)
    }
}

/// Whether `groups` holds, for `operand`, its transactions among the first
/// `upto`, and no entry if there are none.
pub open spec fn groups_operand(
    groups: Map<usize, Vec<Transaction>>,
    transactions: Seq<Transaction>,
    operand: usize,
    upto: int,
) -> bool {
    &&& groups.contains_key(operand) <==> of_operand(transactions, operand, upto).len() > 0
    &&& groups.contains_key(operand) ==> groups[operand]@ == of_operand(
        transactions,
        operand,
        upto,
    )
}

/// Whether `found` holds, for `operand`, its pairs among the first `upto`
/// transactions in sorted order, and no entry if there are none.
pub open spec fn pairs_operand(
    found: Map<usize, Vec<Pair>>,
    transactions: Seq<Transaction>,
    access: Access,
    prior_access: Access,
    operand: usize,
    upto: int,
) -> bool {
    &&& found.contains_key(operand) <==> pairs_of(
        transactions,
        access,
        prior_access,
        operand,
        upto,
    ).len() > 0
    &&& found.contains_key(operand) ==> sorted(found[operand]@) && found[operand]@.to_multiset()
        == pairs_of(transactions, access, prior_access, operand, upto).to_multiset()
}

/// Numbers are keys that a tree map keeps in order.
pub proof fn lemma_keys_are_ordered()
    ensures
        vstd::laws_cmp::obeys_cmp::<usize>(),
{
    broadcast use vstd::laws_cmp::group_laws_cmp;

}

/// Whether `a` comes before `b` in the order of transactions.
pub fn transaction_precedes(a: &Transaction, b: &Transaction) -> (before: bool)
    ensures
        before == precedes(*a, *b),
{
    if a.instruction != b.instruction {
        a.instruction < b.instruction
    } else if a.operand != b.operand {
        a.operand < b.operand
    } else {
        a.access == Access::Read && b.access == Access::Write
    }
}

/// Whether `p` comes before `q` in the order of pairs.
pub fn pair_comes_first(p: &Pair, q: &Pair) -> (before: bool)
    ensures
        before == pair_precedes(*p, *q),
{
    if transaction_precedes(&p.0, &q.0) {
        true
    } else if p.0.instruction == q.0.instruction && p.0.operand == q.0.operand && p.0.access
        == q.0.access {
        transaction_precedes(&p.1, &q.1)
    } else {
        false
    }
}

/// Puts a pair into a sorted list, behind the pairs that do not come after
/// it.
fn insert_sorted(list: &mut Vec<Pair>, pair: Pair)
    requires
        sorted(old(list)@),
    ensures
        sorted(final(list)@),
        final(list)@.to_multiset() == old(list)@.to_multiset().insert(pair),
{
    let mut at: usize = 0;
    while at < list.len() && !pair_comes_first(&pair, &list[at])
        invariant
            at <= list@.len(),
            list@ == old(list)@,
            forall|m: int| 0 <= m < at ==> !pair_precedes(pair, list@[m]),
        decreases list@.len() - at,
    {
        at += 1;
    }
    let ghost before = list@;
    list.insert(at, pair);
    proof {
        vstd::seq_lib::to_multiset_insert(before, at as int, pair);
        assert forall|a: int, b: int| 0 <= a < b < list@.len() implies !pair_precedes(
            list@[b],
            list@[a],
        ) by {
            if b < at {
                assert(!pair_precedes(before[b], before[a]));
            } else if b == at {
                assert(!pair_precedes(pair, before[a]));
            } else if a == at {
                assert(pair_precedes(pair, before[at as int]));
                if b - 1 > at {
                    assert(!pair_precedes(before[b - 1], before[at as int]));
                }
            } else if a < at {
                assert(!pair_precedes(before[b - 1], before[a]));
            } else {
                assert(!pair_precedes(before[b - 1], before[a - 1]));
            }
        }
    }
}

/// The transactions of every operand, in their order.
pub fn group_by_operand(transactions: &[Transaction]) -> (groups: BTreeMap<usize, Vec<Transaction>>)
    ensures
        forall|operand: usize| #[trigger]
            groups_operand(groups@, transactions@, operand, transactions@.len() as int),
{
    broadcast use vstd::std_specs::btree::group_btree_axioms;

    let mut groups: BTreeMap<usize, Vec<Transaction>> = BTreeMap::new();
    let mut g: usize = 0;
    while g < transactions.len()
        invariant
            g <= transactions@.len(),
            forall|operand: usize| #[trigger]
                groups_operand(groups@, transactions@, operand, g as int),
        decreases transactions@.len() - g,
    {
        let transaction = transactions[g];
        let ghost before = groups@;
        proof {
            lemma_keys_are_ordered();
            assert(groups_operand(before, transactions@, transaction.operand, g as int));
        }
        let mut list = match groups.remove(&transaction.operand) {
            Some(list) => list,
            None => Vec::new(),
        };
        proof {
            let earlier = of_operand(transactions@, transaction.operand, g as int);
            if !before.contains_key(transaction.operand) {
                assert(earlier =~= Seq::empty());
                assert(list@ =~= earlier);
            }
            assert(list@ == earlier);
        }
        list.push(transaction);
        groups.insert(transaction.operand, list);
        proof {
            assert forall|operand: usize| #[trigger]
                groups_operand(groups@, transactions@, operand, g + 1) by {
                assert(groups_operand(before, transactions@, operand, g as int));
                if operand == transaction.operand {
                    assert(groups@.contains_key(operand));
                    assert(groups@[operand] == list);
                } else {
                    assert(groups@.contains_key(operand) == before.contains_key(operand));
                    if before.contains_key(operand) {
                        assert(groups@[operand] == before[operand]);
                    }
                }
            }
        }
        g += 1;
    }
    groups
}

/// The place of the last of the first `upto` transactions that accesses
/// `operand` in the given way.
fn find_last_access(transactions: &[Transaction], upto: usize, operand: usize, access: Access) -> (found:
    Option<usize>)
    requires
        upto <= transactions@.len(),
    ensures
        match found {
            Some(h) => h < upto && last_access(transactions@, upto as int, operand, access)
                == Some(h as int),
            None => last_access(transactions@, upto as int, operand, access) is None,
        },
{
    let mut h: usize = upto;
    while h > 0
        invariant
            h <= upto <= transactions@.len(),
            last_access(transactions@, upto as int, operand, access) == last_access(
                transactions@,
                h as int,
                operand,
                access,
            ),
        decreases h,
    {
        if transactions[h - 1].operand == operand && transactions[h - 1].access == access {
            return Some(h - 1);
        }
        h -= 1;
    }
    None
}

/// For every operand, the accesses of kind `access` to it, each with the
/// most recent earlier access of kind `prior_access` to it, in sorted order.
/// Operands without such a pair have no entry.
pub fn get_operand_transaction_pairs(
    access: &Access,
    prior_access: &Access,
    transactions: &[Transaction],
) -> (operand_pairs: BTreeMap<usize, Vec<Pair>>)
    ensures
        forall|operand: usize| #[trigger]
            pairs_operand(
                operand_pairs@,
                transactions@,
                *access,
                *prior_access,
                operand,
                transactions@.len() as int,
            ),
{
    broadcast use vstd::std_specs::btree::group_btree_axioms;

    let mut operand_pairs: BTreeMap<usize, Vec<Pair>> = BTreeMap::new();
    let mut g: usize = 0;
    while g < transactions.len()
        invariant
            g <= transactions@.len(),
            forall|operand: usize| #[trigger]
                pairs_operand(
                    operand_pairs@,
                    transactions@,
                    *access,
                    *prior_access,
                    operand,
                    g as int,
                ),
        decreases transactions@.len() - g,
    {
        let later = transactions[g];
        let ghost before = operand_pairs@;
        if later.access == *access {
            if let Some(h) = find_last_access(transactions, g, later.operand, *prior_access) {
                let pair = (later, transactions[h]);
                proof {
                    lemma_keys_are_ordered();
                    assert(pairs_operand(
                        before,
                        transactions@,
                        *access,
                        *prior_access,
                        later.operand,
                        g as int,
                    ));
                }
                let mut list = match operand_pairs.remove(&later.operand) {
                    Some(list) => list,
                    None => Vec::new(),
                };
                proof {
                    let earlier = pairs_of(
                        transactions@,
                        *access,
                        *prior_access,
                        later.operand,
                        g as int,
                    );
                    if !before.contains_key(later.operand) {
                        assert(earlier =~= Seq::empty());
                        assert(list@ =~= earlier);
                    }
                    vstd::seq_lib::to_multiset_build(earlier, pair);
                }
                insert_sorted(&mut list, pair);
                operand_pairs.insert(later.operand, list);
            }
        }
        proof {
            assert forall|operand: usize| #[trigger]
                pairs_operand(
                    operand_pairs@,
                    transactions@,
                    *access,
                    *prior_access,
                    operand,
                    g + 1,
                ) by {
                assert(pairs_operand(
                    before,
                    transactions@,
                    *access,
                    *prior_access,
                    operand,
                    g as int,
                ));
            }
        }
        g += 1;
    }
    operand_pairs
}

} // verus!
