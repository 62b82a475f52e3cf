//! Induction lemmas over the model: bounds on aggregate sums, how the
//! sums move under pointwise change, push and update of child lists,
//! and what the relational predicates preserve.

use vstd::prelude::*;

use crate::account::{Account, AccountType, Action, BranchEntry, Error, Inflow};
use crate::date::Date;
use crate::model::{
    all_leaves, appended_at, apply_ensures, data_count, data_count_seq, data_wf, fixed_takes,
    flat_deposit_exact, flex_phase, flex_round, flex_total, node_takes, room, stats_of, stats_ok,
    stats_plus, bal, bal_seq, cap, cap_seq, count, count_seq, deposit_ensures,
    deposited_at, find_path, find_path_seq, gained_at_most, get_at, height, height_seq, inflow_ok,
    leaves_all, leaves_at_most, path_valid, unit_bound, wf_rec, withdrawn_at,
};

verus! {

/// A subtree's node count is part of the whole suffix count.
pub proof fn lemma_count_seq_le(s: Seq<BranchEntry>, i: int, k: int)
    requires
        0 <= i <= k < s.len(),
    ensures
        count(s[k].account) <= count_seq(s, i),
        count_seq(s, k + 1) <= count_seq(s, i),
    decreases k - i,
{
    if i < k {
        lemma_count_seq_le(s, i + 1, k);
    }
}

/// Aggregate balances are bounded by one `i64` magnitude per node.
pub proof fn lemma_bal_bound(a: Account)
    ensures
        -(count(a) * unit_bound()) <= bal(a) <= count(a) * unit_bound(),
    decreases a, 1int,
{
    match a.data {
        AccountType::Leaf { .. } => {
            assert(count(a) * unit_bound() == unit_bound()) by (nonlinear_arith)
                requires count(a) == 1;
        },
        AccountType::Branch { children } => {
            lemma_bal_seq_bound(children@, 0);
            assert((1 + count_seq(children@, 0)) * unit_bound() == unit_bound() + count_seq(
                children@,
                0,
            ) * unit_bound()) by (nonlinear_arith);
        },
    }
}

/// Suffix sums of balances are bounded by one `i64` magnitude per node.
pub proof fn lemma_bal_seq_bound(s: Seq<BranchEntry>, i: int)
    ensures
        -(count_seq(s, i) * unit_bound()) <= bal_seq(s, i) <= count_seq(s, i) * unit_bound(),
    decreases s, s.len() - i,
{
    if 0 <= i < s.len() {
        lemma_bal_bound(s[i].account);
        lemma_bal_seq_bound(s, i + 1);
        assert((count(s[i].account) + count_seq(s, i + 1)) * unit_bound() == count(s[i].account)
            * unit_bound() + count_seq(s, i + 1) * unit_bound()) by (nonlinear_arith);
    }
}

/// Aggregate capacities of a well-formed tree are not negative and are
/// bounded by one `i64` magnitude per node.
pub proof fn lemma_cap_bound(a: Account)
    requires
        wf_rec(a),
    ensures
        0 <= cap(a) <= count(a) * unit_bound(),
    decreases a, 1int,
{
    match a.data {
        AccountType::Leaf { .. } => {
            assert(count(a) * unit_bound() == unit_bound()) by (nonlinear_arith)
                requires count(a) == 1;
        },
        AccountType::Branch { children } => {
            lemma_cap_seq_bound(children@, 0);
            assert((1 + count_seq(children@, 0)) * unit_bound() == unit_bound() + count_seq(
                children@,
                0,
            ) * unit_bound()) by (nonlinear_arith);
        },
    }
}

/// Suffix sums of capacities under well-formed entries.
pub proof fn lemma_cap_seq_bound(s: Seq<BranchEntry>, i: int)
    requires
        forall|j: int| 0 <= j < s.len() ==> #[trigger] wf_rec(s[j].account),
    ensures
        0 <= cap_seq(s, i) <= count_seq(s, i) * unit_bound(),
    decreases s, s.len() - i,
{
    if 0 <= i < s.len() {
        lemma_cap_bound(s[i].account);
        lemma_cap_seq_bound(s, i + 1);
        assert((count(s[i].account) + count_seq(s, i + 1)) * unit_bound() == count(s[i].account)
            * unit_bound() + count_seq(s, i + 1) * unit_bound()) by (nonlinear_arith);
    }
}

/// Appending one entry adds its subtree to every suffix sum.
pub proof fn lemma_sums_push(s: Seq<BranchEntry>, e: BranchEntry, i: int)
    requires
        0 <= i <= s.len(),
    ensures
        bal_seq(s.push(e), i) == bal_seq(s, i) + bal(e.account),
        cap_seq(s.push(e), i) == cap_seq(s, i) + cap(e.account),
        count_seq(s.push(e), i) == count_seq(s, i) + count(e.account),
    decreases s.len() - i,
{
    if i < s.len() {
        assert(s.push(e)[i] == s[i]);
        lemma_sums_push(s, e, i + 1);
    } else {
        assert(s.push(e)[i] == e);
        assert(bal_seq(s.push(e), i + 1) == 0);
        assert(cap_seq(s.push(e), i + 1) == 0);
        assert(count_seq(s.push(e), i + 1) == 0);
    }
}

/// Two child lists that agree everywhere but at `idx` have suffix sums
/// that differ exactly by the difference at `idx`.
pub proof fn lemma_sums_eq_except(c1: Seq<BranchEntry>, c2: Seq<BranchEntry>, i: int, idx: int)
    requires
        c2.len() == c1.len(),
        0 <= idx < c1.len(),
        forall|j: int| 0 <= j < c1.len() && j != idx ==> c2[j] == c1[j],
        0 <= i <= c1.len(),
    ensures
        i <= idx ==> bal_seq(c2, i) - bal_seq(c1, i) == bal(c2[idx].account) - bal(
            c1[idx].account,
        ) && cap_seq(c2, i) - cap_seq(c1, i) == cap(c2[idx].account) - cap(c1[idx].account)
            && count_seq(c2, i) + count(c1[idx].account) == count_seq(c1, i) + count(
            c2[idx].account,
        ),
        i > idx ==> bal_seq(c2, i) == bal_seq(c1, i) && cap_seq(c2, i) == cap_seq(c1, i)
            && count_seq(c2, i) == count_seq(c1, i),
    decreases c1.len() - i,
{
    if i < c1.len() {
        lemma_sums_eq_except(c1, c2, i + 1, idx);
    }
}

/// `gained_at_most` widens to any larger allowance.
pub proof fn lemma_gained_widen(pre: Account, post: Account, k: int, k2: int)
    requires
        gained_at_most(pre, post, k),
        k <= k2,
    ensures
        gained_at_most(pre, post, k2),
    decreases pre, 1int,
{
    match pre.data {
        AccountType::Branch { children: c1 } => match post.data {
            AccountType::Branch { children: c2 } => {
                assert forall|i: int| #![trigger c1@[i], c2@[i]]
                    0 <= i < c1@.len() implies c2@[i].inflow == c1@[i].inflow && gained_at_most(
                    c1@[i].account,
                    c2@[i].account,
                    k2,
                ) by {
                    assert(gained_at_most(c1@[i].account, c2@[i].account, k));
                    lemma_gained_widen(c1@[i].account, c2@[i].account, k, k2);
                }
            },
            _ => {},
        },
        _ => {},
    }
}

/// A tree gains nothing from itself.
pub proof fn lemma_gained_refl(a: Account, k: int)
    requires
        0 <= k,
    ensures
        gained_at_most(a, a, k),
    decreases a, 1int,
{
    match a.data {
        AccountType::Branch { children } => {
            assert forall|i: int| #![trigger children@[i]]
                0 <= i < children@.len() implies children@[i].inflow == children@[i].inflow
                && gained_at_most(children@[i].account, children@[i].account, k) by {
                lemma_gained_refl(children@[i].account, k);
            }
        },
        _ => {},
    }
}

/// Two deposits in sequence gain at most the sum of their allowances.
pub proof fn lemma_gained_trans(a: Account, b: Account, c: Account, k1: int, k2: int)
    requires
        gained_at_most(a, b, k1),
        gained_at_most(b, c, k2),
    ensures
        gained_at_most(a, c, k1 + k2),
    decreases a, 1int,
{
    match (a.data, b.data, c.data) {
        (
            AccountType::Branch { children: c1 },
            AccountType::Branch { children: c2 },
            AccountType::Branch { children: c3 },
        ) => {
            assert forall|i: int| #![trigger c1@[i], c3@[i]]
                0 <= i < c1@.len() implies c3@[i].inflow == c1@[i].inflow && gained_at_most(
                c1@[i].account,
                c3@[i].account,
                k1 + k2,
            ) by {
                assert(gained_at_most(c1@[i].account, c2@[i].account, k1));
                assert(gained_at_most(c2@[i].account, c3@[i].account, k2));
                lemma_gained_trans(c1@[i].account, c2@[i].account, c3@[i].account, k1, k2);
            }
        },
        _ => {},
    }
}

/// What a deposit-shaped change keeps: the node count, the aggregate
/// capacity, the height, well-formedness, and every leaf headroom
/// bound weakened by the allowance.
pub proof fn lemma_gained_preserves(pre: Account, post: Account, k: int, b: int)
    requires
        gained_at_most(pre, post, k),
    ensures
        count(post) == count(pre),
        cap(post) == cap(pre),
        height(post) == height(pre),
        wf_rec(pre) ==> wf_rec(post),
        leaves_at_most(pre, b) ==> leaves_at_most(post, b + k),
    decreases pre, 1int,
{
    match (pre.data, post.data) {
        (AccountType::Branch { children: c1 }, AccountType::Branch { children: c2 }) => {
            lemma_gained_preserves_seq(c1@, c2@, k, b, 0);
        },
        _ => {},
    }
}

/// Suffix version of `lemma_gained_preserves`.
pub proof fn lemma_gained_preserves_seq(
    c1: Seq<BranchEntry>,
    c2: Seq<BranchEntry>,
    k: int,
    b: int,
    i: int,
)
    requires
        c2.len() == c1.len(),
        forall|j: int| #![trigger c1[j], c2[j]]
            0 <= j < c1.len() ==> c2[j].inflow == c1[j].inflow && gained_at_most(
                c1[j].account,
                c2[j].account,
                k,
            ),
    ensures
        count_seq(c2, i) == count_seq(c1, i),
        cap_seq(c2, i) == cap_seq(c1, i),
        height_seq(c2, i) == height_seq(c1, i),
        (forall|j: int| #![trigger c1[j]]
            0 <= j < c1.len() ==> wf_rec(c1[j].account) && inflow_ok(c1[j].inflow)) ==> (forall|
            j: int,
        | #![trigger c2[j]]
            0 <= j < c2.len() ==> wf_rec(c2[j].account) && inflow_ok(c2[j].inflow)),
        (forall|j: int| #![trigger c1[j]] 0 <= j < c1.len() ==> leaves_at_most(c1[j].account, b))
            ==> (forall|j: int| #![trigger c2[j]]
            0 <= j < c2.len() ==> leaves_at_most(c2[j].account, b + k)),
    decreases c1, c1.len() - i,
{
    assert forall|j: int| #![trigger c2[j]]
        0 <= j < c1.len() implies count(c2[j].account) == count(c1[j].account) && cap(
        c2[j].account,
    ) == cap(c1[j].account) && height(c2[j].account) == height(c1[j].account) && (wf_rec(
        c1[j].account,
    ) ==> wf_rec(c2[j].account)) && (leaves_at_most(c1[j].account, b) ==> leaves_at_most(
        c2[j].account,
        b + k,
    )) by {
        assert(gained_at_most(c1[j].account, c2[j].account, k));
        lemma_gained_preserves(c1[j].account, c2[j].account, k, b);
    }
    if 0 <= i < c1.len() {
        lemma_gained_preserves_seq(c1, c2, k, b, i + 1);
    }
}

/// A leaf-headroom bound only loosens as the bound grows.
pub proof fn lemma_leaves_widen(a: Account, b: int, b2: int)
    requires
        leaves_at_most(a, b),
        b <= b2,
    ensures
        leaves_at_most(a, b2),
    decreases a, 1int,
{
    match a.data {
        AccountType::Branch { children } => {
            assert forall|i: int| #![trigger children@[i]]
                0 <= i < children@.len() implies leaves_at_most(children@[i].account, b2) by {
                assert(leaves_at_most(children@[i].account, b));
                lemma_leaves_widen(children@[i].account, b, b2);
            }
        },
        _ => {},
    }
}

/// A found path is valid and ends at a node carrying the sought name.
pub proof fn lemma_find_path_sound(a: Account, name: Seq<char>)
    ensures
        match find_path(a, name) {
            Some(p) => path_valid(a, p) && get_at(a, p).name@ == name,
            None => true,
        },
    decreases a, 1int,
{
    if a.name@ == name {
    } else {
        match a.data {
            AccountType::Branch { children } => {
                lemma_find_path_seq_sound(children@, 0, name, a);
            },
            _ => {},
        }
    }
}

/// Suffix version of `lemma_find_path_sound`.
pub proof fn lemma_find_path_seq_sound(s: Seq<BranchEntry>, i: int, name: Seq<char>, a: Account)
    requires
        a.data matches AccountType::Branch { children } && children@ == s,
        a.name@ != name,
    ensures
        match find_path_seq(s, i, name) {
            Some(p) => path_valid(a, p) && get_at(a, p).name@ == name,
            None => true,
        },
    decreases s, s.len() - i,
{
    if 0 <= i < s.len() {
        match find_path(s[i].account, name) {
            Some(p) => {
                lemma_find_path_sound(s[i].account, name);
                let q = seq![i] + p;
                assert(q[0] == i);
                assert(q.skip(1) =~= p);
            },
            None => {
                lemma_find_path_seq_sound(s, i + 1, name, a);
            },
        }
    }
}

/// What a deposit along a path does to the whole tree.
pub proof fn lemma_deposited_at(pre: Account, post: Account, p: Seq<int>, k: int)
    requires
        deposited_at(pre, post, p, k),
    ensures
        count(post) == count(pre),
        cap(post) == cap(pre),
        wf_rec(pre) ==> wf_rec(post),
        bal(pre) <= bal(post) <= bal(pre) + k,
        forall|b: int| #![trigger leaves_at_most(pre, b)]
            leaves_at_most(pre, b) ==> leaves_at_most(post, b + k),
    decreases p.len(),
{
    if p.len() == 0 {
        assert forall|b: int| #![trigger leaves_at_most(pre, b)]
            leaves_at_most(pre, b) implies leaves_at_most(post, b + k) by {
            lemma_gained_preserves(pre, post, k, b);
        }
        lemma_gained_preserves(pre, post, k, 0);
    } else {
        match (pre.data, post.data) {
            (AccountType::Branch { children: c1 }, AccountType::Branch { children: c2 }) => {
                let i = p[0];
                lemma_deposited_at(c1@[i].account, c2@[i].account, p.skip(1), k);
                lemma_sums_eq_except(c1@, c2@, 0, i);
                assert forall|b: int| #![trigger leaves_at_most(pre, b)]
                    leaves_at_most(pre, b) implies leaves_at_most(post, b + k) by {
                    assert forall|j: int| #![trigger c2@[j]]
                        0 <= j < c2@.len() implies leaves_at_most(
                        c2@[j].account,
                        b + k,
                    ) by {
                        assert(leaves_at_most(c1@[j].account, b));
                        if j == i {
                        } else {
                            lemma_leaves_widen(c1@[j].account, b, b + k);
                        }
                    }
                }
                assert(wf_rec(pre) ==> wf_rec(post)) by {
                    if wf_rec(pre) {
                        assert forall|j: int| #![trigger c2@[j]]
                            0 <= j < c2@.len() implies wf_rec(c2@[j].account) && inflow_ok(
                            c2@[j].inflow,
                        ) by {
                            assert(wf_rec(c1@[j].account) && inflow_ok(c1@[j].inflow));
                        }
                    }
                }
            },
            _ => {},
        }
    }
}

/// What a withdrawal along a path does to the whole tree.
pub proof fn lemma_withdrawn_at(pre: Account, post: Account, p: Seq<int>, k: int)
    requires
        withdrawn_at(pre, post, p, k),
    ensures
        count(post) == count(pre),
        cap(post) == cap(pre),
        wf_rec(pre) ==> wf_rec(post),
        bal(post) == bal(pre) - k,
        forall|b: int| #![trigger leaves_at_most(pre, b)]
            leaves_at_most(pre, b) && k >= 0 ==> leaves_at_most(post, b),
    decreases p.len(),
{
    if p.len() == 0 {
    } else {
        match (pre.data, post.data) {
            (AccountType::Branch { children: c1 }, AccountType::Branch { children: c2 }) => {
                let i = p[0];
                lemma_withdrawn_at(c1@[i].account, c2@[i].account, p.skip(1), k);
                lemma_sums_eq_except(c1@, c2@, 0, i);
                assert forall|b: int| #![trigger leaves_at_most(pre, b)]
                    leaves_at_most(pre, b) && k >= 0 implies leaves_at_most(post, b) by {
                    assert forall|j: int| #![trigger c2@[j]]
                        0 <= j < c2@.len() implies leaves_at_most(
                        c2@[j].account,
                        b,
                    ) by {
                        assert(leaves_at_most(c1@[j].account, b));
                    }
                }
                assert(wf_rec(pre) ==> wf_rec(post)) by {
                    if wf_rec(pre) {
                        assert forall|j: int| #![trigger c2@[j]]
                            0 <= j < c2@.len() implies wf_rec(c2@[j].account) && inflow_ok(
                            c2@[j].inflow,
                        ) by {
                            assert(wf_rec(c1@[j].account) && inflow_ok(c1@[j].inflow));
                        }
                    }
                }
            },
            _ => {},
        }
    }
}

/// What attaching a child along a path does to the whole tree.
pub proof fn lemma_appended_at(
    pre: Account,
    post: Account,
    p: Seq<int>,
    child: Account,
    inflow: Inflow,
)
    requires
        appended_at(pre, post, p, child, inflow),
    ensures
        count(post) == count(pre) + count(child),
        cap(post) == cap(pre) + cap(child),
        bal(post) == bal(pre) + bal(child),
        wf_rec(pre) && wf_rec(child) && inflow_ok(inflow) ==> wf_rec(post),
        forall|b: int| #![trigger leaves_at_most(pre, b)]
            leaves_at_most(pre, b) && leaves_at_most(child, b) ==> leaves_at_most(post, b),
    decreases p.len(),
{
    let e = BranchEntry { account: child, inflow };
    if p.len() == 0 {
        match (pre.data, post.data) {
            (AccountType::Branch { children: c1 }, AccountType::Branch { children: c2 }) => {
                lemma_sums_push(c1@, e, 0);
                assert forall|b: int| #![trigger leaves_at_most(pre, b)]
                    leaves_at_most(pre, b) && leaves_at_most(child, b) implies leaves_at_most(
                    post,
                    b,
                ) by {
                    assert forall|j: int| #![trigger c2@[j]]
                        0 <= j < c2@.len() implies leaves_at_most(
                        c2@[j].account,
                        b,
                    ) by {
                        if j < c1@.len() {
                            assert(c2@[j] == c1@[j]);
                            assert(leaves_at_most(c1@[j].account, b));
                        } else {
                            assert(c2@[j] == e);
                        }
                    }
                }
                assert(wf_rec(pre) && wf_rec(child) && inflow_ok(inflow) ==> wf_rec(post)) by {
                    if wf_rec(pre) && wf_rec(child) && inflow_ok(inflow) {
                        assert forall|j: int| #![trigger c2@[j]]
                            0 <= j < c2@.len() implies wf_rec(c2@[j].account) && inflow_ok(
                            c2@[j].inflow,
                        ) by {
                            if j < c1@.len() {
                                assert(c2@[j] == c1@[j]);
                                assert(wf_rec(c1@[j].account) && inflow_ok(c1@[j].inflow));
                            } else {
                                assert(c2@[j] == e);
                            }
                        }
                    }
                }
            },
            _ => {},
        }
    } else {
        match (pre.data, post.data) {
            (AccountType::Branch { children: c1 }, AccountType::Branch { children: c2 }) => {
                let i = p[0];
                lemma_appended_at(c1@[i].account, c2@[i].account, p.skip(1), child, inflow);
                lemma_sums_eq_except(c1@, c2@, 0, i);
                assert forall|b: int| #![trigger leaves_at_most(pre, b)]
                    leaves_at_most(pre, b) && leaves_at_most(child, b) implies leaves_at_most(
                    post,
                    b,
                ) by {
                    assert forall|j: int| #![trigger c2@[j]]
                        0 <= j < c2@.len() implies leaves_at_most(
                        c2@[j].account,
                        b,
                    ) by {
                        assert(leaves_at_most(c1@[j].account, b));
                    }
                }
                assert(wf_rec(pre) && wf_rec(child) && inflow_ok(inflow) ==> wf_rec(post)) by {
                    if wf_rec(pre) && wf_rec(child) && inflow_ok(inflow) {
                        assert forall|j: int| #![trigger c2@[j]]
                            0 <= j < c2@.len() implies wf_rec(c2@[j].account) && inflow_ok(
                            c2@[j].inflow,
                        ) by {
                            assert(wf_rec(c1@[j].account) && inflow_ok(c1@[j].inflow));
                        }
                    }
                }
            },
            _ => {},
        }
    }
}

/// Suffix counts shrink as the suffix shrinks.
pub proof fn lemma_count_seq_mono(s: Seq<BranchEntry>, i: int, j: int)
    requires
        0 <= i <= j <= s.len(),
    ensures
        count_seq(s, j) <= count_seq(s, i),
    decreases j - i,
{
    if i < j {
        lemma_count_seq_mono(s, i + 1, j);
    }
}

/// Every suffix balance sum of a tree of bounded size fits well inside
/// the wide integer range.
pub proof fn lemma_bal_seq_fits(s: Seq<BranchEntry>, i: int)
    requires
        count_seq(s, 0) <= 0x1_0000_0000,
        0 <= i <= s.len(),
    ensures
        -0x8000_0000_0000_0000_0000_0000 <= bal_seq(s, i) <= 0x8000_0000_0000_0000_0000_0000,
{
    lemma_bal_seq_bound(s, i);
    lemma_count_seq_mono(s, 0, i);
    assert(count_seq(s, i) * unit_bound() <= 0x1_0000_0000 * unit_bound()) by (nonlinear_arith)
        requires count_seq(s, i) <= 0x1_0000_0000;
}

/// Every suffix capacity sum of a well-formed tree of bounded size fits
/// well inside the wide integer range.
pub proof fn lemma_cap_seq_fits(s: Seq<BranchEntry>, i: int)
    requires
        forall|j: int| 0 <= j < s.len() ==> #[trigger] wf_rec(s[j].account),
        count_seq(s, 0) <= 0x1_0000_0000,
        0 <= i <= s.len(),
    ensures
        0 <= cap_seq(s, i) <= 0x8000_0000_0000_0000_0000_0000,
{
    lemma_cap_seq_bound(s, i);
    lemma_count_seq_mono(s, 0, i);
    assert(count_seq(s, i) * unit_bound() <= 0x1_0000_0000 * unit_bound()) by (nonlinear_arith)
        requires count_seq(s, i) <= 0x1_0000_0000;
}

/// The aggregates of one subtree fit well inside the wide integer range.
pub proof fn lemma_node_fits(a: Account)
    requires
        wf_rec(a),
        count(a) <= 0x1_0000_0000,
    ensures
        -0x8000_0000_0000_0000_0000_0000 * 0x1_0000 <= bal(a)
            <= 0x8000_0000_0000_0000_0000_0000 * 0x1_0000,
        0 <= cap(a) <= 0x8000_0000_0000_0000_0000_0000 * 0x1_0000,
        -0x8000_0000_0000_0000_0000_0000_0000 <= bal(a) <= 0x8000_0000_0000_0000_0000_0000_0000,
        0 <= cap(a) <= 0x8000_0000_0000_0000_0000_0000_0000,
{
    lemma_bal_bound(a);
    lemma_cap_bound(a);
    assert(count(a) * unit_bound() <= 0x1_0000_0000 * unit_bound()) by (nonlinear_arith)
        requires count(a) <= 0x1_0000_0000;
}

/// One entry's height is below the running maximum over the suffix.
pub proof fn lemma_height_seq_le(s: Seq<BranchEntry>, i: int, k: int)
    requires
        0 <= i <= k < s.len(),
    ensures
        height(s[k].account) <= height_seq(s, i),
    decreases k - i,
{
    if i < k {
        lemma_height_seq_le(s, i + 1, k);
    }
}

/// A per-entry leaf bound only loosens as the bound grows.
pub proof fn lemma_leaves_all_widen(s: Seq<BranchEntry>, b: int, b2: int)
    requires
        leaves_all(s, b),
        b <= b2,
    ensures
        leaves_all(s, b2),
{
    assert forall|i: int| #![trigger s[i]] 0 <= i < s.len() implies leaves_at_most(
        s[i].account,
        b2,
    ) by {
        assert(leaves_at_most(s[i].account, b));
        lemma_leaves_widen(s[i].account, b, b2);
    }
}

/// A suffix of entries counts at least one node per entry.
pub proof fn lemma_count_seq_ge_len(s: Seq<BranchEntry>, i: int)
    requires
        0 <= i <= s.len(),
    ensures
        count_seq(s, i) >= s.len() - i,
    decreases s.len() - i,
{
    if i < s.len() {
        lemma_count_pos(s[i].account);
        lemma_count_seq_ge_len(s, i + 1);
    }
}

/// Every tree has at least one node.
pub proof fn lemma_count_pos(a: Account)
    ensures
        count(a) >= 1,
{
}

/// A transfer is two independent steps, and the withdrawal commits
/// first: when the transfer reports `NotFound` although the source
/// leaf exists (the deposit target is the missing name), the tree has
/// lost exactly the withdrawn amount — it is not held anywhere else.
pub proof fn lemma_transfer_partial_failure(
    pre: Account,
    post: Account,
    from: String,
    to: Option<String>,
    amount: i64,
    date: Date,
    r: Result<(), Error>,
)
    requires
        apply_ensures(pre, post, Action::Transfer { from, to, amount, date }, r),
        r == Err::<(), Error>(Error::NotFound),
        find_path(pre, from@) matches Some(p) && get_at(pre, p).data is Leaf,
    ensures
        bal(post) == bal(pre) - amount,
{
    let p = find_path(pre, from@).unwrap();
    let mid = choose|m: Account|
        withdrawn_at(pre, m, p, amount as int) && deposit_ensures(m, post, to, amount, r);
    lemma_withdrawn_at(pre, mid, p, amount as int);
    assert(post == mid);
}

/// A deposit-shaped change keeps a single-level child list single
/// level: a leaf child stays a leaf.
pub proof fn lemma_all_leaves_preserved(c1: Seq<BranchEntry>, c2: Seq<BranchEntry>, k: int)
    requires
        c2.len() == c1.len(),
        forall|j: int| #![trigger c1[j], c2[j]]
            0 <= j < c1.len() ==> c2[j].inflow == c1[j].inflow && gained_at_most(
                c1[j].account,
                c2[j].account,
                k,
            ),
        all_leaves(c1),
    ensures
        all_leaves(c2),
{
    assert forall|j: int| #![trigger c2[j]] 0 <= j < c2.len() implies c2[j].account.data
        is Leaf by {
        assert(c1[j].account.data is Leaf);
        assert(gained_at_most(c1[j].account, c2[j].account, k));
    }
}

/// Well-formedness and the node count depend on the data alone, never
/// on a node's name.
pub proof fn lemma_data_view(a: Account)
    ensures
        wf_rec(a) == data_wf(a.data),
        count(a) == data_count(a.data),
    decreases a, 1int,
{
    match a.data {
        AccountType::Branch { children } => {
            lemma_data_view_seq(children@, 0);
            assert forall|i: int| #![trigger children@[i]]
                0 <= i < children@.len() implies (wf_rec(children@[i].account) == data_wf(
                children@[i].account.data,
            )) by {
                lemma_data_view(children@[i].account);
            }
            assert(wf_rec(a) == data_wf(a.data)) by {
                if wf_rec(a) {
                    assert forall|i: int| #![trigger children@[i]]
                        0 <= i < children@.len() implies data_wf(children@[i].account.data)
                        && inflow_ok(children@[i].inflow) by {
                        assert(wf_rec(children@[i].account) && inflow_ok(children@[i].inflow));
                    }
                }
                if data_wf(a.data) {
                    assert forall|i: int| #![trigger children@[i]]
                        0 <= i < children@.len() implies wf_rec(children@[i].account) && inflow_ok(
                        children@[i].inflow,
                    ) by {
                        assert(data_wf(children@[i].account.data) && inflow_ok(
                            children@[i].inflow,
                        ));
                    }
                }
            }
        },
        _ => {},
    }
}

/// Suffix version of `lemma_data_view` for the counts.
pub proof fn lemma_data_view_seq(s: Seq<BranchEntry>, i: int)
    ensures
        count_seq(s, i) == data_count_seq(s, i),
    decreases s, s.len() - i,
{
    if 0 <= i < s.len() {
        lemma_data_view(s[i].account);
        lemma_data_view_seq(s, i + 1);
    }
}

/// The fixed pass never hands a child more than its clamped headroom,
/// never hands out a negative take, and never overdraws the pool.
pub proof fn lemma_fixed_takes_capped(cs: Seq<(Inflow, int, int)>, i: int, avail: int)
    requires
        stats_ok(cs),
        0 <= avail,
        0 <= i <= cs.len(),
    ensures
        fixed_takes(cs, i, avail).0.len() == cs.len() - i,
        forall|j: int|
            0 <= j < cs.len() - i ==> 0 <= #[trigger] fixed_takes(cs, i, avail).0[j] <= room(
                cs[i + j],
            ),
        0 <= fixed_takes(cs, i, avail).1 <= avail,
    decreases cs.len() - i,
{
    if i < cs.len() {
        assert(inflow_ok(cs[i].0));
        let take = fixed_takes(cs, i, avail).0[0];
        lemma_fixed_takes_capped(cs, i + 1, avail - take);
    }
}

/// One flexible round never hands a child more than its clamped
/// headroom, never a negative take, and never overdraws the pool.
pub proof fn lemma_flex_round_capped(
    cs: Seq<(Inflow, int, int)>,
    i: int,
    base: int,
    total: int,
    avail: int,
)
    requires
        stats_ok(cs),
        0 <= base,
        1 <= total,
        0 <= avail,
        0 <= i <= cs.len(),
    ensures
        flex_round(cs, i, base, total, avail).0.len() == cs.len() - i,
        forall|j: int|
            0 <= j < cs.len() - i ==> 0 <= #[trigger] flex_round(cs, i, base, total, avail).0[j]
                <= room(cs[i + j]),
        0 <= flex_round(cs, i, base, total, avail).1 <= avail,
    decreases cs.len() - i,
{
    if i < cs.len() {
        assert(inflow_ok(cs[i].0));
        match cs[i].0 {
            Inflow::Flex(w) => {
                assert(0 <= (base * w) / total) by (nonlinear_arith)
                    requires 0 <= base, 0 <= w, 1 <= total,
                ;
            },
            Inflow::Fixed(_) => {},
        }
        let take = flex_round(cs, i, base, total, avail).0[0];
        lemma_flex_round_capped(cs, i + 1, base, total, avail - take);
    }
}

/// The whole flexible phase never hands a child more than its clamped
/// headroom at the phase's start, and never overdraws the pool.
pub proof fn lemma_flex_phase_capped(cs: Seq<(Inflow, int, int)>, pool: int)
    requires
        stats_ok(cs),
        0 <= pool,
    ensures
        flex_phase(cs, pool).0.len() == cs.len(),
        forall|j: int|
            0 <= j < cs.len() ==> 0 <= #[trigger] flex_phase(cs, pool).0[j] <= room(cs[j]),
        0 <= flex_phase(cs, pool).1 <= pool,
    decreases (if pool > 0 { pool } else { 0int }),
{
    let total = flex_total(cs, 0);
    if total > 0 && pool > crate::account::TOLERANCE {
        let round = flex_round(cs, 0, pool, total, pool);
        lemma_flex_round_capped(cs, 0, pool, total, pool);
        if round.1 < pool {
            let cs2 = stats_plus(cs, round.0);
            assert(stats_ok(cs2)) by {
                assert forall|j: int| #![trigger cs2[j]]
                    0 <= j < cs2.len() implies inflow_ok(cs2[j].0) by {
                    assert(inflow_ok(cs[j].0));
                }
            }
            lemma_flex_phase_capped(cs2, round.1);
            let rest = flex_phase(cs2, round.1);
            assert forall|j: int|
                0 <= j < cs.len() implies 0 <= #[trigger] flex_phase(cs, pool).0[j] <= room(
                cs[j],
            ) by {
                assert(flex_phase(cs, pool).0[j] == round.0[j] + rest.0[j]);
                assert(0 <= round.0[j] <= room(cs[j]));
                assert(0 <= rest.0[j] <= room(cs2[j]));
                assert(cs2[j] == (cs[j].0, cs[j].1 + round.0[j], cs[j].2));
            }
        }
    }
}

/// When the overflow fallback hands out nothing, ordinary allocation
/// respects capacity: no child is handed more than its clamped
/// headroom. (The fallback itself is the designed exception: it fires
/// only when no under-capacity flexible weight remains and then
/// ignores ceilings.)
pub proof fn lemma_node_takes_capped(cs: Seq<(Inflow, int, int)>, amount: int)
    requires
        stats_ok(cs),
        0 <= amount,
        flex_phase(stats_plus(cs, fixed_takes(cs, 0, amount).0), fixed_takes(cs, 0, amount).1).1
            <= crate::account::TOLERANCE * cs.len(),
    ensures
        forall|j: int| 0 <= j < cs.len() ==> 0 <= #[trigger] node_takes(cs, amount)[j] <= room(
            cs[j],
        ),
{
    let f = fixed_takes(cs, 0, amount);
    lemma_fixed_takes_capped(cs, 0, amount);
    let cs2 = stats_plus(cs, f.0);
    assert(stats_ok(cs2)) by {
        assert forall|j: int| #![trigger cs2[j]] 0 <= j < cs2.len() implies inflow_ok(
            cs2[j].0,
        ) by {
            assert(inflow_ok(cs[j].0));
        }
    }
    lemma_flex_phase_capped(cs2, f.1);
    let l = flex_phase(cs2, f.1);
    assert forall|j: int| 0 <= j < cs.len() implies 0 <= #[trigger] node_takes(cs, amount)[j]
        <= room(cs[j]) by {
        assert(node_takes(cs, amount)[j] == f.0[j] + l.0[j]);
        assert(0 <= f.0[j] <= room(cs[j]));
        assert(0 <= l.0[j] <= room(cs2[j]));
        assert(cs2[j] == (cs[j].0, cs[j].1 + f.0[j], cs[j].2));
    }
}

/// Capacity respect for a deposit into a single-level branch, on the
/// inputs where it holds: if the overflow fallback hands out nothing
/// (ordinary allocation left at most one tolerance per child), then
/// no child ends above the larger of its old balance and its ceiling
/// — a child at or under `max` stays at or under `max`. When the
/// fallback does fire, capacity is deliberately ignored; that is the
/// designed overflow absorption, exercised by the tests.
pub proof fn lemma_flat_deposit_capacity(pre: Account, post: Account, amount: int)
    requires
        flat_deposit_exact(pre, post, amount),
        0 <= amount,
        pre.data matches AccountType::Branch { children } && all_leaves(children@) && stats_ok(
            stats_of(children@),
        ) && flex_phase(
            stats_plus(
                stats_of(children@),
                fixed_takes(stats_of(children@), 0, amount).0,
            ),
            fixed_takes(stats_of(children@), 0, amount).1,
        ).1 <= crate::account::TOLERANCE * children@.len(),
        post.data is Branch,
    ensures
        match pre.data {
            AccountType::Branch { children: c1 } => match post.data {
                AccountType::Branch { children: c2 } => c2@.len() == c1@.len() && forall|j: int|
                    #![trigger c2@[j]]
                    0 <= j < c1@.len() ==> bal(c2@[j].account) <= (if bal(c1@[j].account) >= cap(
                        c1@[j].account,
                    ) {
                        bal(c1@[j].account)
                    } else {
                        cap(c1@[j].account)
                    }),
                _ => true,
            },
            _ => true,
        },
{
    match pre.data {
        AccountType::Branch { children: c1 } => match post.data {
            AccountType::Branch { children: c2 } => {
                let cs = stats_of(c1@);
                lemma_node_takes_capped(cs, amount);
                assert forall|j: int| #![trigger c2@[j]]
                    0 <= j < c1@.len() implies bal(c2@[j].account) <= (if bal(c1@[j].account)
                    >= cap(c1@[j].account) {
                    bal(c1@[j].account)
                } else {
                    cap(c1@[j].account)
                }) by {
                    assert(bal(c2@[j].account) == bal(c1@[j].account) + node_takes(cs, amount)[j]);
                    assert(0 <= node_takes(cs, amount)[j] <= room(cs[j]));
                    assert(cs[j] == (c1@[j].inflow, bal(c1@[j].account), cap(c1@[j].account)));
                }
            },
            _ => {},
        },
        _ => {},
    }
}

} // verus!
