//! The mathematical model of the account tree: node counts, aggregate
//! balances and capacities, well-formedness, pre-order name lookup,
//! and the relational predicates the executable operations promise.

use vstd::prelude::*;

use crate::account::{Account, AccountType, Action, BranchEntry, Error, Inflow};

verus! {

/// Upper bound on the number of nodes a tree may hold. It keeps every
/// aggregate sum far inside the range of the wide integers the
/// executable code sums with.
pub const NODE_CAP: u64 = 0x1_0000_0000;

/// One past the magnitude of any single `i64` leaf quantity.
pub open spec fn unit_bound() -> int {
    0x8000_0000_0000_0000
}

/// Number of nodes in the tree rooted at `a`.
pub open spec fn count(a: Account) -> nat
    decreases a, 0int,
{
    match a.data {
        AccountType::Leaf { .. } => 1,
        AccountType::Branch { children } => 1 + count_seq(children@, 0),
    }
}

/// Number of nodes in the subtrees of `s[i..]`.
pub open spec fn count_seq(s: Seq<BranchEntry>, i: int) -> nat
    decreases s, s.len() - i,
{
    if 0 <= i < s.len() {
        count(s[i].account) + count_seq(s, i + 1)
    } else {
        0
    }
}

/// Aggregate balance: a leaf's own balance, or the sum over children.
pub open spec fn bal(a: Account) -> int
    decreases a, 0int,
{
    match a.data {
        AccountType::Leaf { balance, .. } => balance as int,
        AccountType::Branch { children } => bal_seq(children@, 0),
    }
}

/// Sum of the aggregate balances of the subtrees of `s[i..]`.
pub open spec fn bal_seq(s: Seq<BranchEntry>, i: int) -> int
    decreases s, s.len() - i,
{
    if 0 <= i < s.len() {
        bal(s[i].account) + bal_seq(s, i + 1)
    } else {
        0
    }
}

/// Aggregate capacity: a leaf's own ceiling, or the sum over children.
pub open spec fn cap(a: Account) -> int
    decreases a, 0int,
{
    match a.data {
        AccountType::Leaf { max, .. } => max as int,
        AccountType::Branch { children } => cap_seq(children@, 0),
    }
}

/// Sum of the aggregate capacities of the subtrees of `s[i..]`.
pub open spec fn cap_seq(s: Seq<BranchEntry>, i: int) -> int
    decreases s, s.len() - i,
{
    if 0 <= i < s.len() {
        cap(s[i].account) + cap_seq(s, i + 1)
    } else {
        0
    }
}

/// Height of the tree, the measure that bounds deposit recursion.
pub open spec fn height(a: Account) -> nat
    decreases a, 0int,
{
    match a.data {
        AccountType::Leaf { .. } => 1,
        AccountType::Branch { children } => 1 + height_seq(children@, 0),
    }
}

/// Largest height among the subtrees of `s[i..]`.
pub open spec fn height_seq(s: Seq<BranchEntry>, i: int) -> nat
    decreases s, s.len() - i,
{
    if 0 <= i < s.len() {
        if height(s[i].account) >= height_seq(s, i + 1) {
            height(s[i].account)
        } else {
            height_seq(s, i + 1)
        }
    } else {
        0
    }
}

/// An inflow rule is well formed when its amount or weight is not
/// negative.
pub open spec fn inflow_ok(f: Inflow) -> bool {
    match f {
        Inflow::Fixed(amount) => amount >= 0,
        Inflow::Flex(weight) => weight >= 0,
    }
}

/// Structural well-formedness: capacities are never negative and every
/// inflow rule is well formed, throughout the tree.
pub open spec fn wf_rec(a: Account) -> bool
    decreases a, 0int,
{
    match a.data {
        AccountType::Leaf { max, .. } => max >= 0,
        AccountType::Branch { children } => forall|i: int| #![trigger children@[i]]
            0 <= i < children@.len() ==> wf_rec(children@[i].account) && inflow_ok(
                children@[i].inflow,
            ),
    }
}

/// A tree the operations accept: structurally well formed and small
/// enough that every aggregate fits the wide arithmetic.
pub open spec fn wf(a: Account) -> bool {
    wf_rec(a) && count(a) <= NODE_CAP
}

/// Every leaf balance in the tree is at most `b`. Deposits require
/// enough headroom below `i64::MAX` under this predicate.
pub open spec fn leaves_at_most(a: Account, b: int) -> bool
    decreases a, 0int,
{
    match a.data {
        AccountType::Leaf { balance, .. } => balance <= b,
        AccountType::Branch { children } => forall|i: int| #![trigger children@[i]]
            0 <= i < children@.len() ==> leaves_at_most(children@[i].account, b),
    }
}

/// First match for `name`, as a path of child indices, under the
/// depth-first pre-order traversal: a node is examined before its
/// subtree, children in stored order, and each child's own name is
/// tested before its subtree is entered. Duplicate names therefore
/// resolve deterministically to the first pre-order occurrence.
pub open spec fn find_path(a: Account, name: Seq<char>) -> Option<Seq<int>>
    decreases a, 0int,
{
    if a.name@ == name {
        Some(Seq::empty())
    } else {
        match a.data {
            AccountType::Leaf { .. } => None,
            AccountType::Branch { children } => find_path_seq(children@, 0, name),
        }
    }
}

/// First match for `name` among the subtrees of `s[i..]`.
pub open spec fn find_path_seq(s: Seq<BranchEntry>, i: int, name: Seq<char>) -> Option<Seq<int>>
    decreases s, s.len() - i,
{
    if 0 <= i < s.len() {
        match find_path(s[i].account, name) {
            Some(p) => Some(seq![i] + p),
            None => find_path_seq(s, i + 1, name),
        }
    } else {
        None
    }
}

/// `p` denotes an existing position in the tree.
pub open spec fn path_valid(a: Account, p: Seq<int>) -> bool
    decreases p.len(),
{
    if p.len() == 0 {
        true
    } else {
        match a.data {
            AccountType::Leaf { .. } => false,
            AccountType::Branch { children } => 0 <= p[0] < children@.len()
                && path_valid(children@[p[0]].account, p.skip(1)),
        }
    }
}

/// The subtree at position `p`.
pub open spec fn get_at(a: Account, p: Seq<int>) -> Account
    decreases p.len(),
{
    if p.len() == 0 {
        a
    } else {
        match a.data {
            AccountType::Leaf { .. } => a,
            AccountType::Branch { children } => get_at(children@[p[0]].account, p.skip(1)),
        }
    }
}

/// The view of an executable path of child indices.
pub open spec fn path_view(p: Seq<usize>) -> Seq<int> {
    p.map_values(|x: usize| x as int)
}

/// What one deposit of at most `k` units may do to a subtree: the
/// name, the shape, every inflow rule and every capacity are kept;
/// every subtree's aggregate balance rises by some amount between
/// zero and `k`.
pub open spec fn gained_at_most(pre: Account, post: Account, k: int) -> bool
    decreases pre, 0int,
{
    post.name == pre.name && bal(pre) <= bal(post) <= bal(pre) + k && match pre.data {
        AccountType::Leaf { max: m1, .. } => match post.data {
            AccountType::Leaf { max: m2, .. } => m2 == m1,
            _ => false,
        },
        AccountType::Branch { children: c1 } => match post.data {
            AccountType::Branch { children: c2 } => {
                c2@.len() == c1@.len() && forall|i: int| #![trigger c1@[i], c2@[i]]
                    0 <= i < c1@.len() ==> c2@[i].inflow == c1@[i].inflow && gained_at_most(
                        c1@[i].account,
                        c2@[i].account,
                        k,
                    )
            },
            _ => false,
        },
    }
}

/// A deposit of exactly `k` landed on the subtree at `p`; everything
/// off that path is identical. A leaf target absorbs `k` exactly, and
/// a branch of leaves absorbs it up to the abandoned residue, which
/// stays below one tolerance plus one quantum per child.
pub open spec fn deposited_at(pre: Account, post: Account, p: Seq<int>, k: int) -> bool
    decreases p.len(),
{
    if p.len() == 0 {
        gained_at_most(pre, post, k) && (pre.data is Leaf ==> bal(post) == bal(pre) + k) && (
        pre.data matches AccountType::Branch { children } ==> ((children@.len() > 0 && all_leaves(
            children@,
        )) ==> bal(post) + (crate::account::TOLERANCE + 1) * (children@.len() as int) > bal(pre)
            + k)) && flat_deposit_exact(pre, post, k)
    } else {
        post.name == pre.name && match pre.data {
            AccountType::Branch { children: c1 } => match post.data {
                AccountType::Branch { children: c2 } => {
                    let i = p[0];
                    0 <= i < c1@.len() && c2@.len() == c1@.len() && (forall|j: int| #![trigger c1@[j], c2@[j]]
                        0 <= j < c1@.len() && j != i ==> c2@[j] == c1@[j]) && c2@[i].inflow
                        == c1@[i].inflow && deposited_at(
                        c1@[i].account,
                        c2@[i].account,
                        p.skip(1),
                        k,
                    )
                },
                _ => false,
            },
            _ => false,
        }
    }
}

/// The leaf at `p` was debited by exactly `k`; everything else is
/// identical.
pub open spec fn withdrawn_at(pre: Account, post: Account, p: Seq<int>, k: int) -> bool
    decreases p.len(),
{
    if p.len() == 0 {
        post.name == pre.name && match pre.data {
            AccountType::Leaf { balance: b1, max: m1 } => match post.data {
                AccountType::Leaf { balance: b2, max: m2 } => m2 == m1 && b2 == b1 - k,
                _ => false,
            },
            _ => false,
        }
    } else {
        post.name == pre.name && match pre.data {
            AccountType::Branch { children: c1 } => match post.data {
                AccountType::Branch { children: c2 } => {
                    let i = p[0];
                    0 <= i < c1@.len() && c2@.len() == c1@.len() && (forall|j: int| #![trigger c1@[j], c2@[j]]
                        0 <= j < c1@.len() && j != i ==> c2@[j] == c1@[j]) && c2@[i].inflow
                        == c1@[i].inflow && withdrawn_at(
                        c1@[i].account,
                        c2@[i].account,
                        p.skip(1),
                        k,
                    )
                },
                _ => false,
            },
            _ => false,
        }
    }
}

/// A new child with rule `inflow` was appended under the branch at
/// `p`; everything else is identical.
pub open spec fn appended_at(
    pre: Account,
    post: Account,
    p: Seq<int>,
    child: Account,
    inflow: Inflow,
) -> bool
    decreases p.len(),
{
    if p.len() == 0 {
        post.name == pre.name && match pre.data {
            AccountType::Branch { children: c1 } => match post.data {
                AccountType::Branch { children: c2 } => {
                    c2@ == c1@.push(BranchEntry { account: child, inflow })
                },
                _ => false,
            },
            _ => false,
        }
    } else {
        post.name == pre.name && match pre.data {
            AccountType::Branch { children: c1 } => match post.data {
                AccountType::Branch { children: c2 } => {
                    let i = p[0];
                    0 <= i < c1@.len() && c2@.len() == c1@.len() && (forall|j: int| #![trigger c1@[j], c2@[j]]
                        0 <= j < c1@.len() && j != i ==> c2@[j] == c1@[j]) && c2@[i].inflow
                        == c1@[i].inflow && appended_at(
                        c1@[i].account,
                        c2@[i].account,
                        p.skip(1),
                        child,
                        inflow,
                    )
                },
                _ => false,
            },
            _ => false,
        }
    }
}

/// The weight a child contributes to a flexible pass: a fixed child
/// contributes nothing, and so does a flexible child at capacity.
pub open spec fn flex_weight(e: BranchEntry) -> int {
    match e.inflow {
        Inflow::Fixed(_) => 0,
        Inflow::Flex(x) => if cap(e.account) - bal(e.account) <= 0 {
            0
        } else {
            x as int
        },
    }
}

/// Every entry of a child list is itself a well-formed tree of bounded
/// size with a well-formed inflow rule.
pub open spec fn entries_ok(s: Seq<BranchEntry>) -> bool {
    forall|i: int| #![trigger s[i]]
        0 <= i < s.len() ==> wf_rec(s[i].account) && inflow_ok(s[i].inflow) && count(s[i].account)
            <= NODE_CAP
}

/// Every entry's leaf balances are at most `b`.
pub open spec fn leaves_all(s: Seq<BranchEntry>, b: int) -> bool {
    forall|i: int| #![trigger s[i]] 0 <= i < s.len() ==> leaves_at_most(s[i].account, b)
}

/// The machine-limit conditions an action must meet against tree `a`:
/// amounts are not negative, subtractions stay above `i64::MIN`,
/// additions stay below `i64::MAX`, and a new subtree keeps the node
/// count bounded.
pub open spec fn action_ok(a: Account, act: Action) -> bool {
    match act {
        Action::New { name, inflow, parent, data } => {
            let child = Account { name, data };
            inflow_ok(inflow) && wf_rec(child) && count(a) + count(child) <= NODE_CAP
        },
        Action::Withdraw { account, amount, .. } => match find_path(a, account@) {
            Some(p) => get_at(a, p).data matches AccountType::Leaf { balance, .. } ==> i64::MIN
                <= balance - amount <= i64::MAX,
            None => true,
        },
        Action::Deposit { amount, .. } => 0 <= amount && leaves_at_most(a, i64::MAX - amount),
        Action::Transfer { from, amount, .. } => 0 <= amount && leaves_at_most(
            a,
            i64::MAX - amount,
        ) && match find_path(a, from@) {
            Some(p) => get_at(a, p).data matches AccountType::Leaf { balance, .. } ==> i64::MIN
                <= balance - amount,
            None => true,
        },
    }
}

/// What a withdrawal against name `name` does: the first pre-order
/// match is debited if it is a leaf; a branch refuses; a missing name
/// reports `NotFound`; a failed action leaves the tree untouched.
pub open spec fn withdraw_ensures(
    pre: Account,
    post: Account,
    name: Seq<char>,
    amount: i64,
    r: Result<(), Error>,
) -> bool {
    match find_path(pre, name) {
        None => r == Err::<(), Error>(Error::NotFound) && post == pre,
        Some(p) => if get_at(pre, p).data is Leaf {
            r == Ok::<(), Error>(()) && withdrawn_at(pre, post, p, amount as int)
        } else {
            r == Err::<(), Error>(Error::InvalidOperation) && post == pre
        },
    }
}

/// What a deposit does: the named account (or the whole tree when no
/// name is given) receives the amount through the distribution
/// algorithm; a missing name reports `NotFound` and changes nothing.
pub open spec fn deposit_ensures(
    pre: Account,
    post: Account,
    target: Option<String>,
    amount: i64,
    r: Result<(), Error>,
) -> bool {
    match target {
        Some(t) => match find_path(pre, t@) {
            None => r == Err::<(), Error>(Error::NotFound) && post == pre,
            Some(p) => r == Ok::<(), Error>(()) && deposited_at(pre, post, p, amount as int),
        },
        None => r == Ok::<(), Error>(()) && deposited_at(pre, post, Seq::empty(), amount as int),
    }
}

/// The full contract of `Account::apply`, case by case. A transfer is
/// two independent steps: the withdrawal commits before the deposit is
/// attempted, so a failing deposit leaves the source debited.
pub open spec fn apply_ensures(
    pre: Account,
    post: Account,
    act: Action,
    r: Result<(), Error>,
) -> bool {
    match act {
        Action::New { name, inflow, parent, data } => match find_path(pre, parent@) {
            None => r == Err::<(), Error>(Error::NotFound) && post == pre,
            Some(p) => if get_at(pre, p).data is Branch {
                r == Ok::<(), Error>(()) && appended_at(pre, post, p, Account { name, data }, inflow)
            } else {
                r == Err::<(), Error>(Error::InvalidOperation) && post == pre
            },
        },
        Action::Withdraw { account, amount, .. } => withdraw_ensures(pre, post, account@, amount, r),
        Action::Deposit { account, amount, .. } => deposit_ensures(pre, post, account, amount, r),
        Action::Transfer { from, to, amount, .. } => match find_path(pre, from@) {
            None => r == Err::<(), Error>(Error::NotFound) && post == pre,
            Some(p) => if get_at(pre, p).data is Leaf {
                exists|mid: Account| #![trigger withdrawn_at(pre, mid, p, amount as int)]
                    withdrawn_at(pre, mid, p, amount as int) && deposit_ensures(
                    mid,
                    post,
                    to,
                    amount,
                    r,
                )
            } else {
                r == Err::<(), Error>(Error::InvalidOperation) && post == pre
            },
        },
    }
}

/// Every child of this list is a leaf: the single-level case, for
/// which the deposit split is exact up to the abandoned residue.
pub open spec fn all_leaves(s: Seq<BranchEntry>) -> bool {
    forall|i: int| #![trigger s[i]] 0 <= i < s.len() ==> s[i].account.data is Leaf
}

/// The pre-order rendering of a subtree at `depth`: one line per node
/// carrying its name, its aggregate balance and its depth, the node
/// before its children, children in stored order.
pub open spec fn lines_of(a: Account, depth: int) -> Seq<(Seq<char>, int, int)>
    decreases a, 0int,
{
    seq![(a.name@, bal(a), depth)] + match a.data {
        AccountType::Leaf { .. } => Seq::<(Seq<char>, int, int)>::empty(),
        AccountType::Branch { children } => lines_seq(children@, 0, depth + 1),
    }
}

/// The concatenated renderings of the subtrees of `s[i..]`.
pub open spec fn lines_seq(s: Seq<BranchEntry>, i: int, depth: int) -> Seq<(Seq<char>, int, int)>
    decreases s, s.len() - i,
{
    if 0 <= i < s.len() {
        lines_of(s[i].account, depth) + lines_seq(s, i + 1, depth)
    } else {
        Seq::<(Seq<char>, int, int)>::empty()
    }
}

/// What the distributor reads of one child: its inflow rule, its
/// aggregate balance and its aggregate capacity.
pub open spec fn stats_of(s: Seq<BranchEntry>) -> Seq<(Inflow, int, int)> {
    Seq::new(s.len(), |i: int| (s[i].inflow, bal(s[i].account), cap(s[i].account)))
}

/// The statistics after handing each child its delta.
pub open spec fn stats_plus(cs: Seq<(Inflow, int, int)>, d: Seq<int>) -> Seq<(Inflow, int, int)> {
    Seq::new(cs.len(), |i: int| (cs[i].0, cs[i].1 + d[i], cs[i].2))
}

/// The fixed pass over `cs[i..]` with `avail` left in the pool: each
/// fixed child takes the least of its flat amount, its headroom
/// (clamped at zero) and the pool; flexible children take nothing.
/// Returns the takes, in order, and the leftover pool.
pub open spec fn fixed_takes(cs: Seq<(Inflow, int, int)>, i: int, avail: int) -> (Seq<int>, int)
    decreases cs.len() - i,
{
    if 0 <= i < cs.len() {
        let take = match cs[i].0 {
            Inflow::Fixed(f) => {
                let um = if cs[i].2 - cs[i].1 > 0 {
                    cs[i].2 - cs[i].1
                } else {
                    0
                };
                let t1 = if um < f { um } else { f as int };
                if avail < t1 {
                    avail
                } else {
                    t1
                }
            },
            Inflow::Flex(_) => 0,
        };
        let rest = fixed_takes(cs, i + 1, avail - take);
        (seq![take] + rest.0, rest.1)
    } else {
        (Seq::<int>::empty(), avail)
    }
}

/// The flexible weight carried by `cs[i..]`: a fixed child and a
/// flexible child at or beyond capacity carry none.
pub open spec fn flex_total(cs: Seq<(Inflow, int, int)>, i: int) -> int
    decreases cs.len() - i,
{
    if 0 <= i < cs.len() {
        (match cs[i].0 {
            Inflow::Fixed(_) => 0,
            Inflow::Flex(w) => if cs[i].2 - cs[i].1 > 0 {
                w as int
            } else {
                0
            },
        }) + flex_total(cs, i + 1)
    } else {
        0
    }
}

/// One flexible round over `cs[i..]`: each under-capacity flexible
/// child takes the least of its weighted share of the round's base
/// pool, its headroom and what is left. Returns takes and leftover.
pub open spec fn flex_round(
    cs: Seq<(Inflow, int, int)>,
    i: int,
    base: int,
    total: int,
    avail: int,
) -> (Seq<int>, int)
    decreases cs.len() - i,
{
    if 0 <= i < cs.len() {
        let um = cs[i].2 - cs[i].1;
        let take = match cs[i].0 {
            Inflow::Flex(w) => if um > 0 {
                let t0 = (base * w) / total;
                let t1 = if um < t0 {
                    um
                } else {
                    t0
                };
                if avail < t1 {
                    avail
                } else {
                    t1
                }
            } else {
                0
            },
            Inflow::Fixed(_) => 0,
        };
        let rest = flex_round(cs, i + 1, base, total, avail - take);
        (seq![take] + rest.0, rest.1)
    } else {
        (Seq::<int>::empty(), avail)
    }
}

/// The flexible phase run to convergence: rounds repeat while some
/// flexible weight is active, the pool is above the tolerance and the
/// previous round made progress. Returns each child's accumulated
/// gain and the leftover pool.
pub open spec fn flex_phase(cs: Seq<(Inflow, int, int)>, pool: int) -> (Seq<int>, int)
    decreases (if pool > 0 { pool } else { 0int }),
{
    let total = flex_total(cs, 0);
    if total > 0 && pool > crate::account::TOLERANCE {
        let round = flex_round(cs, 0, pool, total, pool);
        if round.1 < pool {
            let rest = flex_phase(stats_plus(cs, round.0), round.1);
            (Seq::new(cs.len(), |i: int| round.0[i] + rest.0[i]), rest.1)
        } else {
            (Seq::new(cs.len(), |i: int| 0), pool)
        }
    } else {
        (Seq::new(cs.len(), |i: int| 0), pool)
    }
}

/// The complete division of `amount` among children with statistics
/// `cs`: the fixed pass, the flexible phase, then — when the residue
/// exceeds one tolerance per child — an even, capacity-ignoring share
/// of it to every child. The result is what each child is handed.
pub open spec fn node_takes(cs: Seq<(Inflow, int, int)>, amount: int) -> Seq<int> {
    let f = fixed_takes(cs, 0, amount);
    let l = flex_phase(stats_plus(cs, f.0), f.1);
    let n = cs.len() as int;
    let share: int = if n > 0 && l.1 > crate::account::TOLERANCE * n {
        l.1 / n
    } else {
        0
    };
    Seq::new(cs.len(), |i: int| f.0[i] + l.0[i] + share)
}

/// For a branch over leaves only, the deposit outcome is pinned
/// exactly: each child's balance rises by precisely its take under
/// `node_takes`. (Leaves absorb what they are handed, so the division
/// at this node is the whole story.)
pub open spec fn flat_deposit_exact(pre: Account, post: Account, amount: int) -> bool {
    match pre.data {
        AccountType::Branch { children: c1 } => all_leaves(c1@) ==> match post.data {
            AccountType::Branch { children: c2 } => c2@.len() == c1@.len() && forall|i: int|
                #![trigger c2@[i]]
                0 <= i < c1@.len() ==> bal(c2@[i].account) == bal(c1@[i].account) + node_takes(
                    stats_of(c1@),
                    amount,
                )[i],
            _ => false,
        },
        _ => true,
    }
}

/// Well-formedness read off the data alone; an account's name plays
/// no part in it.
pub open spec fn data_wf(d: AccountType) -> bool
    decreases d, 0int,
{
    match d {
        AccountType::Leaf { max, .. } => max >= 0,
        AccountType::Branch { children } => forall|i: int| #![trigger children@[i]]
            0 <= i < children@.len() ==> data_wf(children@[i].account.data) && inflow_ok(
                children@[i].inflow,
            ),
    }
}

/// Node count read off the data alone.
pub open spec fn data_count(d: AccountType) -> nat
    decreases d, 0int,
{
    match d {
        AccountType::Leaf { .. } => 1,
        AccountType::Branch { children } => 1 + data_count_seq(children@, 0),
    }
}

/// Node count of the subtrees of `s[i..]`, read off the data alone.
pub open spec fn data_count_seq(s: Seq<BranchEntry>, i: int) -> nat
    decreases s, s.len() - i,
{
    if 0 <= i < s.len() {
        data_count(s[i].account.data) + data_count_seq(s, i + 1)
    } else {
        0
    }
}

/// `x` clamped just above the node-count bound.
pub open spec fn capped(x: nat) -> nat {
    if x > NODE_CAP {
        (NODE_CAP + 1) as nat
    } else {
        x
    }
}

/// Child statistics with well-formed rules: no negative fixed amount
/// or weight.
pub open spec fn stats_ok(cs: Seq<(Inflow, int, int)>) -> bool {
    forall|i: int| #![trigger cs[i]] 0 <= i < cs.len() ==> inflow_ok(cs[i].0)
}

/// A child's headroom clamped at zero.
pub open spec fn room(c: (Inflow, int, int)) -> int {
    if c.2 - c.1 > 0 {
        c.2 - c.1
    } else {
        0
    }
}

} // verus!
