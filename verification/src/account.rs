//! The account tree: leaves hold balances, branches hold ordered
//! children, and deposits are divided among children by fixed-amount
//! and flexible-proportional inflow rules.

use vstd::prelude::*;

use crate::date::Date;
use crate::lemmas::{
    lemma_bal_seq_fits, lemma_cap_seq_fits, lemma_count_seq_le, lemma_gained_preserves,
    lemma_gained_preserves_seq, lemma_gained_refl, lemma_gained_trans, lemma_gained_widen,
    lemma_height_seq_le, lemma_leaves_all_widen, lemma_leaves_widen, lemma_node_fits,
};
use crate::lemmas::{
    lemma_all_leaves_preserved, lemma_appended_at, lemma_data_view, lemma_deposited_at,
    lemma_find_path_sound, lemma_withdrawn_at,
};
use crate::model::{
    action_ok, all_leaves, appended_at, apply_ensures, bal, bal_seq, cap, cap_seq, capped, count,
    count_seq, data_count, data_count_seq, data_wf, deposited_at, entries_ok, find_path,
    find_path_seq, fixed_takes, flat_deposit_exact, flex_phase, flex_round, flex_total,
    flex_weight, gained_at_most, get_at, height, height_seq, inflow_ok, leaves_all, leaves_at_most,
    lines_of, lines_seq, node_takes, path_valid, path_view, stats_of, stats_plus, wf, wf_rec,
    withdrawn_at, NODE_CAP,
};
use vstd::arithmetic::div_mod::lemma_fundamental_div_mod;

verus! {

/// Smallest represented money quantum; all amounts count these units.
/// One unit stands for one hundredth of a currency unit, so this is
/// also the distribution tolerance: residues of at most one unit may
/// be abandoned rather than split further.
pub const TOLERANCE: i64 = 1;

/// A named account: either a leaf with its own balance or a branch
/// over an ordered list of children.
#[derive(Debug)]
pub struct Account {
    pub name: String,
    pub data: AccountType,
}

/// One child of a branch together with the inflow rule that governs
/// its share of deposits arriving at the parent.
#[derive(Debug)]
pub struct BranchEntry {
    pub account: Account,
    pub inflow: Inflow,
}

/// The two shapes an account can take.
#[derive(Debug)]
pub enum AccountType {
    /// A terminal account: an actual balance and a soft capacity
    /// ceiling. The balance may go negative on overdraft and may
    /// exceed `max` through overflow redistribution.
    Leaf { balance: i64, max: i64 },
    /// An internal account; its balance and capacity are the sums over
    /// its children, in stored order.
    Branch { children: Vec<BranchEntry> },
}

/// How a child participates when money arrives at its parent.
#[derive(Clone, Copy, Debug)]
pub enum Inflow {
    /// Take up to this flat amount per deposit, bounded by capacity.
    Fixed(i64),
    /// Take a share proportional to this weight among the flexible
    /// siblings that still have headroom, bounded by capacity.
    Flex(i64),
}

/// The four mutating operations against the tree.
pub enum Action {
    New { name: String, inflow: Inflow, parent: String, data: AccountType },
    Withdraw { account: String, amount: i64, date: Date },
    Deposit { account: Option<String>, amount: i64, date: Date },
    Transfer { from: String, to: Option<String>, amount: i64, date: Date },
}

/// The ways an action can fail.
#[derive(Clone, Copy, PartialEq, Eq, Structural, Debug)]
pub enum Error {
    /// A referenced account name does not exist in the tree.
    NotFound,
    /// The named node does not support the operation: withdrawing from
    /// a branch, or attaching a child to a leaf.
    InvalidOperation,
}

impl Account {
    /// The empty root branch, the account every tree starts from.
    pub fn new_root() -> (r: Account)
        ensures
            r.name@ == "root"@,
            r.data matches AccountType::Branch { children } && children@.len() == 0,
            wf(r),
            bal(r) == 0,
            cap(r) == 0,
            count(r) == 1,
    {
        let r = Account { name: "root".to_owned(), data: AccountType::Branch { children: Vec::new() } };
        r
    }

    /// Aggregate balance of this subtree: a leaf's own balance, or the
    /// sum over all children.
    pub fn balance(&self) -> (r: i128)
        requires
            wf(*self),
        ensures
            r == bal(*self),
    {
        self.balance_wide()
    }

    /// Wide-integer subtree balance; the node-count bound keeps every
    /// partial sum far from the ends of the range.
    fn balance_wide(&self) -> (r: i128)
        requires
            wf_rec(*self),
            count(*self) <= NODE_CAP,
        ensures
            r == bal(*self),
        decreases *self, 1int,
    {
        match &self.data {
            AccountType::Leaf { balance, .. } => *balance as i128,
            AccountType::Branch { children } => {
                let ghost s = children@;
                proof {
                    lemma_bal_seq_fits(s, 0);
                }
                let mut acc: i128 = 0;
                let mut i: usize = 0;
                while i < children.len()
                    invariant
                        0 <= i <= s.len(),
                        children@ == s,
                        self.data matches AccountType::Branch { children: c } && c@ == s,
                        wf_rec(*self),
                        count(*self) <= NODE_CAP,
                        acc + bal_seq(s, i as int) == bal_seq(s, 0),
                        count_seq(s, 0) <= NODE_CAP,
                        -0x8000_0000_0000_0000_0000_0000 <= bal_seq(s, 0)
                            <= 0x8000_0000_0000_0000_0000_0000,
                    decreases s.len() - i,
                {
                    let c = &children[i];
                    proof {
                        assert(wf_rec(c.account) && inflow_ok(c.inflow));
                        lemma_count_seq_le(s, 0, i as int);
                        lemma_bal_seq_fits(s, i as int);
                        lemma_bal_seq_fits(s, i as int + 1);
                    }
                    let b = c.account.balance_wide();
                    acc = acc + b;
                    i = i + 1;
                }
                acc
            },
        }
    }

    /// Wide-integer subtree capacity: a leaf's own ceiling, or the sum
    /// over all children.
    fn cap_wide(&self) -> (r: i128)
        requires
            wf_rec(*self),
            count(*self) <= NODE_CAP,
        ensures
            r == cap(*self),
        decreases *self, 1int,
    {
        match &self.data {
            AccountType::Leaf { max, .. } => *max as i128,
            AccountType::Branch { children } => {
                let ghost s = children@;
                proof {
                    assert forall|j: int| 0 <= j < s.len() implies #[trigger] wf_rec(
                        s[j].account,
                    ) by {
                        assert(wf_rec(s[j].account) && inflow_ok(s[j].inflow));
                    }
                    lemma_cap_seq_fits(s, 0);
                }
                let mut acc: i128 = 0;
                let mut i: usize = 0;
                while i < children.len()
                    invariant
                        0 <= i <= s.len(),
                        children@ == s,
                        self.data matches AccountType::Branch { children: c } && c@ == s,
                        wf_rec(*self),
                        count(*self) <= NODE_CAP,
                        acc + cap_seq(s, i as int) == cap_seq(s, 0),
                        count_seq(s, 0) <= NODE_CAP,
                        forall|j: int| 0 <= j < s.len() ==> #[trigger] wf_rec(s[j].account),
                        0 <= cap_seq(s, 0) <= 0x8000_0000_0000_0000_0000_0000,
                    decreases s.len() - i,
                {
                    let c = &children[i];
                    proof {
                        lemma_count_seq_le(s, 0, i as int);
                        lemma_cap_seq_fits(s, i as int);
                        lemma_cap_seq_fits(s, i as int + 1);
                    }
                    let m = c.account.cap_wide();
                    acc = acc + m;
                    i = i + 1;
                }
                acc
            },
        }
    }

    /// Withdraw `amount` from this account. Only a leaf supports it;
    /// the subtraction is unconditional, so a balance may go negative.
    pub fn withdraw(&mut self, amount: i64) -> (r: Result<(), Error>)
        requires
            old(self).data matches AccountType::Leaf { balance, .. } ==> i64::MIN <= balance
                - amount <= i64::MAX,
        ensures
            match old(self).data {
                AccountType::Leaf { .. } => r == Ok::<(), Error>(()) && crate::model::withdrawn_at(
                    *old(self),
                    *final(self),
                    Seq::empty(),
                    amount as int,
                ),
                AccountType::Branch { .. } => r == Err::<(), Error>(Error::InvalidOperation)
                    && *final(self) == *old(self),
            },
    {
        match &mut self.data {
            AccountType::Leaf { balance, .. } => {
                *balance = *balance - amount;
                Ok(())
            },
            AccountType::Branch { .. } => Err(Error::InvalidOperation),
        }
    }

    /// Attach `account` as the last child of this branch, paired with
    /// its inflow rule. A leaf cannot take children.
    pub fn add_child(&mut self, account: Account, inflow: Inflow) -> (r: Result<(), Error>)
        ensures
            match old(self).data {
                AccountType::Branch { .. } => r == Ok::<(), Error>(())
                    && crate::model::appended_at(
                    *old(self),
                    *final(self),
                    Seq::empty(),
                    account,
                    inflow,
                ),
                AccountType::Leaf { .. } => r == Err::<(), Error>(Error::InvalidOperation)
                    && *final(self) == *old(self),
            },
    {
        match &mut self.data {
            AccountType::Branch { children } => {
                children.push(BranchEntry { account, inflow });
                Ok(())
            },
            AccountType::Leaf { .. } => Err(Error::InvalidOperation),
        }
    }
}

impl BranchEntry {
    /// Capacity of this child as its parent sees it.
    fn max(&self) -> (r: i128)
        requires
            wf_rec(self.account),
            count(self.account) <= NODE_CAP,
        ensures
            r == cap(self.account),
    {
        self.account.cap_wide()
    }

    /// Headroom left before this child reaches its capacity; negative
    /// once the overflow path has pushed it beyond the ceiling.
    fn until_max(&self) -> (r: i128)
        requires
            wf_rec(self.account),
            count(self.account) <= NODE_CAP,
        ensures
            r == cap(self.account) - bal(self.account),
    {
        proof {
            lemma_node_fits(self.account);
        }
        self.max() - self.account.balance_wide()
    }

    /// Whether this child is at (or beyond) its capacity.
    fn at_max(&self) -> (r: bool)
        requires
            wf_rec(self.account),
            count(self.account) <= NODE_CAP,
        ensures
            r == (cap(self.account) - bal(self.account) <= 0),
    {
        self.until_max() <= 0
    }

    /// The weight this child carries in a flexible pass: zero for a
    /// fixed child and for a flexible child already at capacity.
    fn get_flex(&self) -> (r: i64)
        requires
            wf_rec(self.account),
            count(self.account) <= NODE_CAP,
        ensures
            r == flex_weight(*self),
    {
        match self.inflow {
            Inflow::Fixed(_) => 0,
            Inflow::Flex(x) => {
                if self.at_max() {
                    0
                } else {
                    x
                }
            },
        }
    }
}

/// Sum of the flexible weights of the children that still have
/// headroom; the denominator of one round of the flexible pass.
fn total_flex(children: &Vec<BranchEntry>) -> (r: i128)
    requires
        entries_ok(children@),
        children@.len() <= NODE_CAP,
    ensures
        0 <= r,
        r == flex_total(stats_of(children@), 0),
{
    let ghost cs = stats_of(children@);
    let mut acc: i128 = 0;
    let mut i: usize = 0;
    let n = children.len();
    while i < n
        invariant
            0 <= i <= n,
            n == children@.len(),
            n <= NODE_CAP,
            entries_ok(children@),
            cs == stats_of(children@),
            0 <= acc,
            acc + flex_total(cs, i as int) == flex_total(cs, 0),
            acc <= (i as int) * 0x8000_0000_0000_0000,
        decreases n - i,
    {
        let e = &children[i];
        assert(wf_rec(e.account) && inflow_ok(e.inflow) && count(e.account) <= NODE_CAP);
        let w = e.get_flex();
        proof {
            assert(acc + w <= ((i + 1) as int) * 0x8000_0000_0000_0000) by (nonlinear_arith)
                requires
                    acc <= (i as int) * 0x8000_0000_0000_0000,
                    w < 0x8000_0000_0000_0000,
            ;
            assert(((i + 1) as int) * 0x8000_0000_0000_0000 < 0x8000_0000_0000_0000_0000_0000_0000_0000)
                by (nonlinear_arith)
                requires (i + 1) as int <= 0x1_0000_0000;
        }
        proof {
            assert(cs[i as int].0 == children@[i as int].inflow);
            assert(cs[i as int].1 == bal(children@[i as int].account));
            assert(cs[i as int].2 == cap(children@[i as int].account));
        }
        if w > 0 {
            acc = acc + (w as i128);
        }
        i = i + 1;
    }
    proof {
        assert(flex_total(cs, n as int) == 0);
    }
    acc
}

/// The fixed pass: each fixed-rule child takes the least of its flat
/// amount, its remaining headroom and the remaining pool; flexible
/// children are passed over untouched.
#[verifier::loop_isolation(false)]
fn fixed_pass(children: Vec<BranchEntry>, pool: i64) -> (r: (Vec<BranchEntry>, i64))
    requires
        0 <= pool,
        entries_ok(children@),
        leaves_all(children@, i64::MAX - pool),
    ensures
        r.0@.len() == children@.len(),
        0 <= r.1 <= pool,
        forall|j: int| #![trigger r.0@[j]]
            0 <= j < children@.len() ==> r.0@[j].inflow == children@[j].inflow && gained_at_most(
                children@[j].account,
                r.0@[j].account,
                pool - r.1,
            ) && (children@[j].inflow is Flex ==> r.0@[j] == children@[j]) && bal(r.0@[j].account)
                <= (if bal(children@[j].account) >= cap(children@[j].account) {
                bal(children@[j].account)
            } else {
                cap(children@[j].account)
            }),
        bal_seq(children@, 0) <= bal_seq(r.0@, 0) <= bal_seq(children@, 0) + (pool - r.1),
        all_leaves(children@) ==> bal_seq(r.0@, 0) == bal_seq(children@, 0) + (pool - r.1),
        all_leaves(children@) ==> (fixed_takes(stats_of(children@), 0, pool as int) == (
            Seq::new(
                children@.len(),
                |j: int| bal(r.0@[j].account) - bal(children@[j].account),
            ),
            r.1 as int,
        )),
        entries_ok(r.0@),
        leaves_all(r.0@, i64::MAX - r.1),
        count_seq(r.0@, 0) == count_seq(children@, 0),
        cap_seq(r.0@, 0) == cap_seq(children@, 0),
        height_seq(r.0@, 0) == height_seq(children@, 0),
    decreases height_seq(children@, 0), 1int,
{
    let ghost orig = children@;
    let ghost cs = stats_of(children@);
    let n = children.len();
    let mut rest = children;
    let mut out: Vec<BranchEntry> = Vec::new();
    let mut avail: i64 = pool;
    let mut i: usize = 0;
    while i < n
        invariant
            i == out@.len(),
            out@.len() + rest@.len() == n,
            n == orig.len(),
            rest@ == orig.skip(i as int),
            cs == stats_of(orig),
            0 <= avail <= pool,
            entries_ok(orig),
            leaves_all(orig, i64::MAX - pool),
            entries_ok(out@),
            leaves_all(out@, i64::MAX - avail),
            all_leaves(orig) ==> (fixed_takes(cs, 0, pool as int) == (
                Seq::new(i as nat, |j: int| bal(out@[j].account) - bal(orig[j].account))
                    + fixed_takes(cs, i as int, avail as int).0,
                fixed_takes(cs, i as int, avail as int).1,
            )),
            forall|j: int| #![trigger out@[j]]
                0 <= j < i ==> out@[j].inflow == orig[j].inflow && gained_at_most(
                    orig[j].account,
                    out@[j].account,
                    pool - avail,
                ) && (orig[j].inflow is Flex ==> out@[j] == orig[j]) && bal(out@[j].account) <= (
                if bal(orig[j].account) >= cap(orig[j].account) {
                    bal(orig[j].account)
                } else {
                    cap(orig[j].account)
                }),
            bal_seq(orig, 0) - bal_seq(orig, i as int) <= bal_seq(out@, 0) <= bal_seq(orig, 0)
                - bal_seq(orig, i as int) + (pool - avail),
            all_leaves(orig) ==> bal_seq(out@, 0) == bal_seq(orig, 0) - bal_seq(orig, i as int)
                + (pool - avail),
        decreases n - i,
    {
        let ghost avail0 = avail;
        let ghost out0 = out@;
        proof {
            assert(orig.skip(i as int)[0] == orig[i as int]);
            assert(rest@.len() > 0);
        }
        let e = rest.remove(0);
        proof {
            assert(rest@ =~= orig.skip(i as int + 1));
            assert(e == orig[i as int]);
            assert(wf_rec(e.account) && inflow_ok(e.inflow) && count(e.account) <= NODE_CAP);
            assert(leaves_at_most(e.account, i64::MAX - pool));
        }
        let e2 = match e.inflow {
            Inflow::Fixed(f) => {
                let um = e.until_max();
                let um_pos: i128 = if um > 0 {
                    um
                } else {
                    0
                };
                let mut take_w: i128 = f as i128;
                if um_pos < take_w {
                    take_w = um_pos;
                }
                if (avail as i128) < take_w {
                    take_w = avail as i128;
                }
                let take: i64 = take_w as i64;
                proof {
                    lemma_leaves_widen(e.account, i64::MAX - pool, i64::MAX - take);
                    lemma_height_seq_le(orig, 0, i as int);
                }
                let acc2 = deposit_core(e.account, take);
                avail = avail - take;
                BranchEntry { account: acc2, inflow: e.inflow }
            },
            Inflow::Flex(_) => e,
        };
        out.push(e2);
        i = i + 1;
        proof {
            let j0 = i as int - 1;
            let k0 = pool - avail0;
            let k1 = pool - avail;
            assert(out@ == out0.push(e2));
            assert(out@[j0] == e2);
            assert(gained_at_most(orig[j0].account, e2.account, avail0 - avail)) by {
                if !(orig[j0].inflow is Fixed) {
                    lemma_gained_refl(e2.account, 0);
                }
            }
            lemma_gained_widen(orig[j0].account, e2.account, avail0 - avail, k1);
            assert forall|j: int| #![trigger out@[j]] 0 <= j < i implies out@[j].inflow
                == orig[j].inflow && gained_at_most(orig[j].account, out@[j].account, k1) && (
            orig[j].inflow is Flex ==> out@[j] == orig[j]) && bal(out@[j].account) <= (if bal(
                orig[j].account,
            ) >= cap(orig[j].account) {
                bal(orig[j].account)
            } else {
                cap(orig[j].account)
            }) by {
                if j < j0 {
                    assert(out@[j] == out0[j]);
                    assert(gained_at_most(orig[j].account, out0[j].account, k0));
                    lemma_gained_widen(orig[j].account, out@[j].account, k0, k1);
                }
            }
            assert forall|j: int| #![trigger out@[j]] 0 <= j < out@.len() implies leaves_at_most(
                out@[j].account,
                i64::MAX - avail,
            ) by {
                if j < j0 {
                    assert(leaves_at_most(out0[j].account, i64::MAX - avail0));
                    lemma_leaves_widen(out@[j].account, i64::MAX - avail0, i64::MAX - avail);
                } else {
                    assert(gained_at_most(orig[j0].account, e2.account, avail0 - avail));
                    lemma_gained_preserves(
                        orig[j0].account,
                        e2.account,
                        avail0 - avail,
                        i64::MAX - pool,
                    );
                    lemma_leaves_widen(
                        e2.account,
                        i64::MAX - pool + (avail0 - avail),
                        i64::MAX - avail,
                    );
                }
            }
            assert forall|j: int| #![trigger out@[j]] 0 <= j < out@.len() implies wf_rec(
                out@[j].account,
            ) && inflow_ok(out@[j].inflow) && count(out@[j].account) <= NODE_CAP by {
                if j < j0 {
                    assert(wf_rec(out0[j].account) && inflow_ok(out0[j].inflow) && count(
                        out0[j].account,
                    ) <= NODE_CAP);
                } else {
                    lemma_gained_preserves(orig[j0].account, e2.account, avail0 - avail, 0);
                }
            }
            crate::lemmas::lemma_sums_push(out0, e2, 0);
            assert(bal_seq(orig, j0) == bal(orig[j0].account) + bal_seq(orig, i as int));
            assert(gained_at_most(orig[j0].account, e2.account, avail0 - avail));
            if all_leaves(orig) {
                assert(orig[j0].account.data is Leaf);
                assert(bal(e2.account) == bal(orig[j0].account) + (avail0 - avail));
                assert(cs[j0].0 == orig[j0].inflow);
                assert(cs[j0].1 == bal(orig[j0].account));
                assert(cs[j0].2 == cap(orig[j0].account));
                assert(fixed_takes(cs, j0, avail0 as int).0[0] == avail0 - avail);
                let pre = Seq::new(j0 as nat, |j: int| bal(out0[j].account) - bal(orig[j].account));
                let pre2 = Seq::new(
                    i as nat,
                    |j: int| bal(out@[j].account) - bal(orig[j].account),
                );
                assert(pre2 =~= pre.push(avail0 - avail));
                assert(pre2 + fixed_takes(cs, i as int, avail as int).0 =~= pre + fixed_takes(
                    cs,
                    j0,
                    avail0 as int,
                ).0);
            }
        }
    }
    proof {
        assert(out@.len() == n);
        assert(bal_seq(orig, n as int) == 0);
        lemma_gained_preserves_seq(orig, out@, pool - avail, 0, 0);
        if all_leaves(orig) {
            assert(fixed_takes(cs, n as int, avail as int).0 =~= Seq::<int>::empty());
            assert(Seq::new(n as nat, |j: int| bal(out@[j].account) - bal(orig[j].account))
                + fixed_takes(cs, n as int, avail as int).0 =~= Seq::new(
                n as nat,
                |j: int| bal(out@[j].account) - bal(orig[j].account),
            ));
        }
    }
    (out, avail)
}

/// One round of the flexible pass: each flexible child that still has
/// headroom takes the least of its weighted share, its headroom and
/// the remaining pool; children at capacity receive nothing whatever
/// their weight, and fixed children are untouched.
#[verifier::loop_isolation(false)]
fn flex_pass(children: Vec<BranchEntry>, pool: i64, total: i128) -> (r: (
    Vec<BranchEntry>,
    i64,
))
    requires
        0 <= pool,
        1 <= total,
        entries_ok(children@),
        leaves_all(children@, i64::MAX - pool),
    ensures
        r.0@.len() == children@.len(),
        0 <= r.1 <= pool,
        forall|j: int| #![trigger r.0@[j]]
            0 <= j < children@.len() ==> r.0@[j].inflow == children@[j].inflow && gained_at_most(
                children@[j].account,
                r.0@[j].account,
                pool - r.1,
            ) && ((children@[j].inflow is Fixed || cap(children@[j].account) - bal(
                children@[j].account,
            ) <= 0) ==> r.0@[j] == children@[j]) && bal(r.0@[j].account) <= (if bal(
                children@[j].account,
            ) >= cap(children@[j].account) {
                bal(children@[j].account)
            } else {
                cap(children@[j].account)
            }),
        bal_seq(children@, 0) <= bal_seq(r.0@, 0) <= bal_seq(children@, 0) + (pool - r.1),
        all_leaves(children@) ==> bal_seq(r.0@, 0) == bal_seq(children@, 0) + (pool - r.1),
        all_leaves(children@) ==> (flex_round(
            stats_of(children@),
            0,
            pool as int,
            total as int,
            pool as int,
        ) == (
            Seq::new(
                children@.len(),
                |j: int| bal(r.0@[j].account) - bal(children@[j].account),
            ),
            r.1 as int,
        )),
        entries_ok(r.0@),
        leaves_all(r.0@, i64::MAX - r.1),
        count_seq(r.0@, 0) == count_seq(children@, 0),
        cap_seq(r.0@, 0) == cap_seq(children@, 0),
        height_seq(r.0@, 0) == height_seq(children@, 0),
    decreases height_seq(children@, 0), 1int,
{
    let ghost orig = children@;
    let ghost cs = stats_of(children@);
    let n = children.len();
    let mut rest = children;
    let mut out: Vec<BranchEntry> = Vec::new();
    let mut avail: i64 = pool;
    let mut i: usize = 0;
    while i < n
        invariant
            i == out@.len(),
            out@.len() + rest@.len() == n,
            n == orig.len(),
            rest@ == orig.skip(i as int),
            cs == stats_of(orig),
            0 <= avail <= pool,
            1 <= total,
            entries_ok(orig),
            leaves_all(orig, i64::MAX - pool),
            entries_ok(out@),
            leaves_all(out@, i64::MAX - avail),
            forall|j: int| #![trigger out@[j]]
                0 <= j < i ==> out@[j].inflow == orig[j].inflow && gained_at_most(
                    orig[j].account,
                    out@[j].account,
                    pool - avail,
                ) && ((orig[j].inflow is Fixed || cap(orig[j].account) - bal(orig[j].account)
                    <= 0) ==> out@[j] == orig[j]) && bal(out@[j].account) <= (if bal(
                    orig[j].account,
                ) >= cap(orig[j].account) {
                    bal(orig[j].account)
                } else {
                    cap(orig[j].account)
                }),
            bal_seq(orig, 0) - bal_seq(orig, i as int) <= bal_seq(out@, 0) <= bal_seq(orig, 0)
                - bal_seq(orig, i as int) + (pool - avail),
            all_leaves(orig) ==> bal_seq(out@, 0) == bal_seq(orig, 0) - bal_seq(orig, i as int)
                + (pool - avail),
            all_leaves(orig) ==> (flex_round(cs, 0, pool as int, total as int, pool as int) == (
                Seq::new(i as nat, |j: int| bal(out@[j].account) - bal(orig[j].account))
                    + flex_round(cs, i as int, pool as int, total as int, avail as int).0,
                flex_round(cs, i as int, pool as int, total as int, avail as int).1,
            )),
        decreases n - i,
    {
        let ghost avail0 = avail;
        let ghost out0 = out@;
        proof {
            assert(orig.skip(i as int)[0] == orig[i as int]);
            assert(rest@.len() > 0);
        }
        let e = rest.remove(0);
        proof {
            assert(rest@ =~= orig.skip(i as int + 1));
            assert(e == orig[i as int]);
            assert(wf_rec(e.account) && inflow_ok(e.inflow) && count(e.account) <= NODE_CAP);
            assert(leaves_at_most(e.account, i64::MAX - pool));
        }
        let e2 = match e.inflow {
            Inflow::Flex(w) => {
                let um = e.until_max();
                if um > 0 {
                    proof {
                        assert(0 <= (pool as i128) * (w as i128)) by (nonlinear_arith)
                            requires 0 <= pool, 0 <= w,
                        ;
                        assert((pool as i128) * (w as i128)
                            < 0x8000_0000_0000_0000_0000_0000_0000_0000) by (nonlinear_arith)
                            requires
                                pool < 0x8000_0000_0000_0000,
                                w < 0x8000_0000_0000_0000,
                                0 <= pool,
                                0 <= w,
                        ;
                        assert(0 <= ((pool as int) * (w as int)) / (total as int))
                            by (nonlinear_arith)
                            requires 0 <= (pool as int) * (w as int), 1 <= total as int,
                        ;
                    }
                    let prod: i128 = (pool as i128) * (w as i128);
                    let mut take_w: i128 = prod / total;
                    if um < take_w {
                        take_w = um;
                    }
                    if (avail as i128) < take_w {
                        take_w = avail as i128;
                    }
                    let take: i64 = take_w as i64;
                    proof {
                        lemma_leaves_widen(e.account, i64::MAX - pool, i64::MAX - take);
                        lemma_height_seq_le(orig, 0, i as int);
                    }
                    let acc2 = deposit_core(e.account, take);
                    avail = avail - take;
                    BranchEntry { account: acc2, inflow: e.inflow }
                } else {
                    e
                }
            },
            Inflow::Fixed(_) => e,
        };
        out.push(e2);
        i = i + 1;
        proof {
            let j0 = i as int - 1;
            let k0 = pool - avail0;
            let k1 = pool - avail;
            assert(out@ == out0.push(e2));
            assert(out@[j0] == e2);
            assert(gained_at_most(orig[j0].account, e2.account, avail0 - avail)) by {
                if e2 == orig[j0] && avail == avail0 {
                    lemma_gained_refl(e2.account, 0);
                }
            }
            lemma_gained_widen(orig[j0].account, e2.account, avail0 - avail, k1);
            assert forall|j: int| #![trigger out@[j]] 0 <= j < i implies out@[j].inflow
                == orig[j].inflow && gained_at_most(orig[j].account, out@[j].account, k1) && ((
            orig[j].inflow is Fixed || cap(orig[j].account) - bal(orig[j].account) <= 0)
                ==> out@[j] == orig[j]) && bal(out@[j].account) <= (if bal(orig[j].account) >= cap(
                orig[j].account,
            ) {
                bal(orig[j].account)
            } else {
                cap(orig[j].account)
            }) by {
                if j < j0 {
                    assert(out@[j] == out0[j]);
                    assert(gained_at_most(orig[j].account, out0[j].account, k0));
                    lemma_gained_widen(orig[j].account, out@[j].account, k0, k1);
                }
            }
            assert forall|j: int| #![trigger out@[j]] 0 <= j < out@.len() implies leaves_at_most(
                out@[j].account,
                i64::MAX - avail,
            ) by {
                if j < j0 {
                    assert(leaves_at_most(out0[j].account, i64::MAX - avail0));
                    lemma_leaves_widen(out@[j].account, i64::MAX - avail0, i64::MAX - avail);
                } else {
                    assert(gained_at_most(orig[j0].account, e2.account, avail0 - avail));
                    lemma_gained_preserves(
                        orig[j0].account,
                        e2.account,
                        avail0 - avail,
                        i64::MAX - pool,
                    );
                    lemma_leaves_widen(
                        e2.account,
                        i64::MAX - pool + (avail0 - avail),
                        i64::MAX - avail,
                    );
                }
            }
            assert forall|j: int| #![trigger out@[j]] 0 <= j < out@.len() implies wf_rec(
                out@[j].account,
            ) && inflow_ok(out@[j].inflow) && count(out@[j].account) <= NODE_CAP by {
                if j < j0 {
                    assert(wf_rec(out0[j].account) && inflow_ok(out0[j].inflow) && count(
                        out0[j].account,
                    ) <= NODE_CAP);
                } else {
                    lemma_gained_preserves(orig[j0].account, e2.account, avail0 - avail, 0);
                }
            }
            crate::lemmas::lemma_sums_push(out0, e2, 0);
            assert(bal_seq(orig, j0) == bal(orig[j0].account) + bal_seq(orig, i as int));
            assert(gained_at_most(orig[j0].account, e2.account, avail0 - avail));
            if all_leaves(orig) {
                assert(orig[j0].account.data is Leaf);
                assert(bal(e2.account) == bal(orig[j0].account) + (avail0 - avail));
                assert(cs[j0].0 == orig[j0].inflow);
                assert(cs[j0].1 == bal(orig[j0].account));
                assert(cs[j0].2 == cap(orig[j0].account));
                assert(flex_round(cs, j0, pool as int, total as int, avail0 as int).0[0] == avail0
                    - avail);
                let pre = Seq::new(j0 as nat, |j: int| bal(out0[j].account) - bal(orig[j].account));
                let pre2 = Seq::new(
                    i as nat,
                    |j: int| bal(out@[j].account) - bal(orig[j].account),
                );
                assert(pre2 =~= pre.push(avail0 - avail));
                assert(pre2 + flex_round(cs, i as int, pool as int, total as int, avail as int).0
                    =~= pre + flex_round(cs, j0, pool as int, total as int, avail0 as int).0);
            }
        }
    }
    proof {
        assert(out@.len() == n);
        assert(bal_seq(orig, n as int) == 0);
        lemma_gained_preserves_seq(orig, out@, pool - avail, 0, 0);
        if all_leaves(orig) {
            assert(flex_round(cs, n as int, pool as int, total as int, avail as int).0
                =~= Seq::<int>::empty());
            assert(Seq::new(n as nat, |j: int| bal(out@[j].account) - bal(orig[j].account))
                + flex_round(cs, n as int, pool as int, total as int, avail as int).0 =~= Seq::new(
                n as nat,
                |j: int| bal(out@[j].account) - bal(orig[j].account),
            ));
        }
    }
    (out, avail)
}

/// The overflow fallback: every child, fixed or flexible, receives the
/// even share, ignoring capacity; this can push balances above `max`.
#[verifier::loop_isolation(false)]
fn overflow_pass(children: Vec<BranchEntry>, share: i64) -> (r: Vec<BranchEntry>)
    requires
        0 <= share,
        entries_ok(children@),
        leaves_all(children@, i64::MAX - share),
    ensures
        r@.len() == children@.len(),
        forall|j: int| #![trigger r@[j]]
            0 <= j < children@.len() ==> r@[j].inflow == children@[j].inflow && gained_at_most(
                children@[j].account,
                r@[j].account,
                share as int,
            ) && (children@[j].account.data is Leaf ==> bal(r@[j].account) == bal(
                children@[j].account,
            ) + share),
        bal_seq(children@, 0) <= bal_seq(r@, 0) <= bal_seq(children@, 0) + share * (
        children@.len() as int),
        all_leaves(children@) ==> bal_seq(r@, 0) == bal_seq(children@, 0) + share * (
        children@.len() as int),
        entries_ok(r@),
        count_seq(r@, 0) == count_seq(children@, 0),
        cap_seq(r@, 0) == cap_seq(children@, 0),
        height_seq(r@, 0) == height_seq(children@, 0),
    decreases height_seq(children@, 0), 1int,
{
    let ghost orig = children@;
    let n = children.len();
    let mut rest = children;
    let mut out: Vec<BranchEntry> = Vec::new();
    let mut i: usize = 0;
    while i < n
        invariant
            i == out@.len(),
            out@.len() + rest@.len() == n,
            n == orig.len(),
            rest@ == orig.skip(i as int),
            0 <= share,
            entries_ok(orig),
            leaves_all(orig, i64::MAX - share),
            entries_ok(out@),
            forall|j: int| #![trigger out@[j]]
                0 <= j < i ==> out@[j].inflow == orig[j].inflow && gained_at_most(
                    orig[j].account,
                    out@[j].account,
                    share as int,
                ) && (orig[j].account.data is Leaf ==> bal(out@[j].account) == bal(orig[j].account)
                    + share),
            bal_seq(orig, 0) - bal_seq(orig, i as int) <= bal_seq(out@, 0) <= bal_seq(orig, 0)
                - bal_seq(orig, i as int) + share * (i as int),
            all_leaves(orig) ==> bal_seq(out@, 0) == bal_seq(orig, 0) - bal_seq(orig, i as int)
                + share * (i as int),
        decreases n - i,
    {
        let ghost out0 = out@;
        proof {
            assert(orig.skip(i as int)[0] == orig[i as int]);
            assert(rest@.len() > 0);
        }
        let e = rest.remove(0);
        proof {
            assert(rest@ =~= orig.skip(i as int + 1));
            assert(e == orig[i as int]);
            assert(wf_rec(e.account) && inflow_ok(e.inflow) && count(e.account) <= NODE_CAP);
            assert(leaves_at_most(e.account, i64::MAX - share));
            lemma_height_seq_le(orig, 0, i as int);
        }
        let acc2 = deposit_core(e.account, share);
        let e2 = BranchEntry { account: acc2, inflow: e.inflow };
        out.push(e2);
        i = i + 1;
        proof {
            let j0 = i as int - 1;
            assert(out@ == out0.push(e2));
            assert(out@[j0] == e2);
            assert forall|j: int| #![trigger out@[j]] 0 <= j < out@.len() implies wf_rec(
                out@[j].account,
            ) && inflow_ok(out@[j].inflow) && count(out@[j].account) <= NODE_CAP by {
                if j < j0 {
                    assert(wf_rec(out0[j].account) && inflow_ok(out0[j].inflow) && count(
                        out0[j].account,
                    ) <= NODE_CAP);
                } else {
                    lemma_gained_preserves(orig[j0].account, e2.account, share as int, 0);
                }
            }
            crate::lemmas::lemma_sums_push(out0, e2, 0);
            assert(bal_seq(orig, j0) == bal(orig[j0].account) + bal_seq(orig, i as int));
            assert(share * (i as int) == share * ((i as int) - 1) + share) by (nonlinear_arith);
            if all_leaves(orig) {
                assert(orig[j0].account.data is Leaf);
                assert(bal(e2.account) == bal(orig[j0].account) + share);
            }
        }
    }
    proof {
        assert(out@.len() == n);
        assert(bal_seq(orig, n as int) == 0);
        assert forall|j: int| #![trigger orig[j], out@[j]]
            0 <= j < orig.len() implies out@[j].inflow == orig[j].inflow && gained_at_most(
            orig[j].account,
            out@[j].account,
            share as int,
        ) by {
            assert(out@[j].inflow == orig[j].inflow && gained_at_most(
                orig[j].account,
                out@[j].account,
                share as int,
            ));
        }
        lemma_gained_preserves_seq(orig, out@, share as int, 0, 0);
    }
    out
}

/// Distribute `amount` into the tree `a`: a leaf absorbs it directly;
/// a branch runs the fixed pass, iterates the flexible pass to
/// convergence, and falls back to an even, capacity-ignoring split of
/// any residue above the tolerance.
#[verifier::loop_isolation(false)]
fn deposit_core(a: Account, amount: i64) -> (r: Account)
    requires
        wf_rec(a),
        count(a) <= NODE_CAP,
        0 <= amount,
        leaves_at_most(a, i64::MAX - amount),
    ensures
        gained_at_most(a, r, amount as int),
        a.data is Leaf ==> bal(r) == bal(a) + amount,
        a.data matches AccountType::Branch { children } ==> ((children@.len() > 0 && all_leaves(
            children@,
        )) ==> bal(r) + (TOLERANCE + 1) * (children@.len() as int) > bal(a) + amount),
        flat_deposit_exact(a, r, amount as int),
        wf_rec(r),
        count(r) == count(a),
        cap(r) == cap(a),
        height(r) == height(a),
    decreases height(a), 0int,
{
    let ghost a0 = a;
    match a.data {
        AccountType::Leaf { balance, max } => {
            let r = Account { name: a.name, data: AccountType::Leaf { balance: balance + amount, max } };
            r
        },
        AccountType::Branch { children } => {
            let ghost s0 = children@;
            proof {
                assert forall|j: int| #![trigger s0[j]] 0 <= j < s0.len() implies wf_rec(
                    s0[j].account,
                ) && inflow_ok(s0[j].inflow) && count(s0[j].account) <= NODE_CAP by {
                    assert(wf_rec(s0[j].account) && inflow_ok(s0[j].inflow));
                    crate::lemmas::lemma_count_seq_le(s0, 0, j);
                }
                assert forall|j: int| #![trigger s0[j]] 0 <= j < s0.len() implies leaves_at_most(
                    s0[j].account,
                    i64::MAX - amount,
                ) by {
                    assert(leaves_at_most(s0[j].account, i64::MAX - amount));
                }
                assert(height_seq(s0, 0) < height(a0));
                crate::lemmas::lemma_count_seq_ge_len(s0, 0);
                assert(s0.len() <= NODE_CAP);
            }
            let ghost cs0 = stats_of(s0);
            let ghost ft = fixed_takes(cs0, 0, amount as int);
            let pr = fixed_pass(children, amount);
            let mut cur = pr.0;
            let mut pool = pr.1;
            proof {
                if all_leaves(s0) {
                    lemma_all_leaves_preserved(s0, cur@, amount - pool);
                    assert forall|j: int| 0 <= j < s0.len() implies cap(#[trigger] cur@[j].account)
                        == cap(s0[j].account) by {
                        lemma_gained_preserves(s0[j].account, cur@[j].account, amount - pool, 0);
                    }
                    assert(stats_of(cur@) =~= stats_plus(cs0, ft.0));
                }
            }
            let ghost target = flex_phase(stats_plus(cs0, ft.0), ft.1);
            let mut progress = true;
            let mut tf = total_flex(&cur);
            while tf > 0 && pool > TOLERANCE && progress
                invariant
                    cur@.len() == s0.len(),
                    0 <= pool <= amount,
                    entries_ok(cur@),
                    leaves_all(cur@, i64::MAX - pool),
                    forall|j: int| #![trigger cur@[j]]
                        0 <= j < s0.len() ==> cur@[j].inflow == s0[j].inflow && gained_at_most(
                            s0[j].account,
                            cur@[j].account,
                            amount - pool,
                        ),
                    bal_seq(s0, 0) <= bal_seq(cur@, 0) <= bal_seq(s0, 0) + (amount - pool),
                    count_seq(cur@, 0) == count_seq(s0, 0),
                    cap_seq(cur@, 0) == cap_seq(s0, 0),
                    height_seq(cur@, 0) == height_seq(s0, 0),
                    height_seq(s0, 0) < height(a0),
                    s0.len() <= NODE_CAP,
                    all_leaves(s0) ==> all_leaves(cur@) && bal_seq(cur@, 0) == bal_seq(s0, 0) + (
                    amount - pool),
                    progress ==> tf == flex_total(stats_of(cur@), 0),
                    all_leaves(s0) ==> (target == (
                        Seq::new(
                            s0.len(),
                            |ii: int| (bal(cur@[ii].account) - bal(s0[ii].account) - ft.0[ii])
                                + flex_phase(stats_of(cur@), pool as int).0[ii],
                        ),
                        flex_phase(stats_of(cur@), pool as int).1,
                    )),
                    !progress ==> (all_leaves(s0) ==> flex_phase(stats_of(cur@), pool as int) == (
                        Seq::new(s0.len(), |ii: int| 0int),
                        pool as int,
                    )),
                decreases (if progress { 1int } else { 0int }), pool,
            {
                let ghost cur0 = cur@;
                let ghost tf0 = tf;
                let pool0 = pool;
                let pr2 = flex_pass(cur, pool, tf);
                cur = pr2.0;
                pool = pr2.1;
                if pool == pool0 {
                    progress = false;
                } else {
                    tf = total_flex(&cur);
                }
                proof {
                    assert forall|j: int| #![trigger cur@[j]]
                        0 <= j < s0.len() implies cur@[j].inflow == s0[j].inflow
                        && gained_at_most(s0[j].account, cur@[j].account, amount - pool) by {
                        assert(cur@[j].inflow == cur0[j].inflow && gained_at_most(
                            cur0[j].account,
                            cur@[j].account,
                            pool0 - pool,
                        ));
                        assert(gained_at_most(s0[j].account, cur0[j].account, amount - pool0));
                        lemma_gained_trans(
                            s0[j].account,
                            cur0[j].account,
                            cur@[j].account,
                            amount - pool0,
                            pool0 - pool,
                        );
                    }
                    if all_leaves(s0) {
                        lemma_all_leaves_preserved(cur0, cur@, pool0 - pool);
                        assert forall|j: int| 0 <= j < s0.len() implies cap(
                            #[trigger] cur@[j].account,
                        ) == cap(cur0[j].account) by {
                            lemma_gained_preserves(
                                cur0[j].account,
                                cur@[j].account,
                                pool0 - pool,
                                0,
                            );
                        }
                        let cs_a = stats_of(cur0);
                        let round = flex_round(cs_a, 0, pool0 as int, tf0 as int, pool0 as int);
                        assert(round.1 == pool as int);
                        assert(round.0 =~= Seq::new(
                            s0.len(),
                            |j: int| bal(cur@[j].account) - bal(cur0[j].account),
                        ));
                        assert(stats_of(cur@) =~= stats_plus(cs_a, round.0));
                        assert(flex_phase(cs_a, pool0 as int) == if pool < pool0 {
                            (
                                Seq::new(
                                    cs_a.len(),
                                    |ii: int| round.0[ii] + flex_phase(
                                        stats_plus(cs_a, round.0),
                                        pool as int,
                                    ).0[ii],
                                ),
                                flex_phase(stats_plus(cs_a, round.0), pool as int).1,
                            )
                        } else {
                            (Seq::new(cs_a.len(), |ii: int| 0int), pool0 as int)
                        });
                        if pool < pool0 {
                            assert forall|ii: int| 0 <= ii < s0.len() implies target.0[ii] == (bal(
                                cur@[ii].account,
                            ) - bal(s0[ii].account) - ft.0[ii]) + flex_phase(
                                stats_of(cur@),
                                pool as int,
                            ).0[ii] by {
                                assert(target.0[ii] == (bal(cur0[ii].account) - bal(
                                    s0[ii].account,
                                ) - ft.0[ii]) + flex_phase(cs_a, pool0 as int).0[ii]);
                                assert(flex_phase(cs_a, pool0 as int).0[ii] == round.0[ii]
                                    + flex_phase(stats_of(cur@), pool as int).0[ii]);
                                assert(round.0[ii] == bal(cur@[ii].account) - bal(
                                    cur0[ii].account,
                                ));
                            }
                            assert(target.1 == flex_phase(stats_of(cur@), pool as int).1);
                        } else {
                            assert(pool == pool0);
                            assert(stats_of(cur@) =~= cs_a);
                            assert(flex_phase(stats_of(cur@), pool as int) == (
                                Seq::new(s0.len(), |ii: int| 0int),
                                pool as int,
                            ));
                            assert forall|ii: int| 0 <= ii < s0.len() implies target.0[ii] == (bal(
                                cur@[ii].account,
                            ) - bal(s0[ii].account) - ft.0[ii]) + flex_phase(
                                stats_of(cur@),
                                pool as int,
                            ).0[ii] by {
                                assert(target.0[ii] == (bal(cur0[ii].account) - bal(
                                    s0[ii].account,
                                ) - ft.0[ii]) + flex_phase(cs_a, pool0 as int).0[ii]);
                                assert(flex_phase(cs_a, pool0 as int).0[ii] == 0);
                                assert(round.0[ii] == 0);
                                assert(bal(cur@[ii].account) == bal(cur0[ii].account));
                            }
                            assert(target.1 == pool as int);
                        }
                    }
                }
            }
            proof {
                if all_leaves(s0) {
                    assert(flex_phase(stats_of(cur@), pool as int) == (
                        Seq::new(s0.len(), |ii: int| 0int),
                        pool as int,
                    )) by {
                        if progress {
                            assert(tf == flex_total(stats_of(cur@), 0));
                        }
                    }
                    assert(target.1 == pool as int);
                    assert forall|ii: int| 0 <= ii < s0.len() implies target.0[ii] == bal(
                        cur@[ii].account,
                    ) - bal(s0[ii].account) - ft.0[ii] by {
                        assert(target.0[ii] == (bal(cur@[ii].account) - bal(s0[ii].account)
                            - ft.0[ii]) + flex_phase(stats_of(cur@), pool as int).0[ii]);
                    }
                }
            }
            let n2 = cur.len();
            if n2 > 0 {
                proof {
                    crate::lemmas::lemma_count_seq_ge_len(s0, 0);
                }
                let share = pool / (n2 as i64);
                proof {
                    lemma_fundamental_div_mod(pool as int, n2 as int);
                    assert(share == pool as int / n2 as int);
                    assert(share * (n2 as int) <= pool) by (nonlinear_arith)
                        requires
                            pool as int == (n2 as int) * (share as int) + (pool as int % (
                            n2 as int)),
                            0 <= pool as int % (n2 as int),
                    ;
                }
                if pool > (n2 as i64) * TOLERANCE {
                    let ghost cur1 = cur@;
                    let ghost pool1 = pool;
                    proof {
                        lemma_leaves_all_widen(cur@, i64::MAX - pool, i64::MAX - share);
                    }
                    cur = overflow_pass(cur, share);
                    proof {
                        assert forall|j: int| #![trigger cur@[j]]
                            0 <= j < s0.len() implies cur@[j].inflow == s0[j].inflow
                            && gained_at_most(s0[j].account, cur@[j].account, amount as int) by {
                            assert(cur@[j].inflow == cur1[j].inflow && gained_at_most(
                                cur1[j].account,
                                cur@[j].account,
                                share as int,
                            ));
                            assert(gained_at_most(s0[j].account, cur1[j].account, amount - pool1));
                            lemma_gained_trans(
                                s0[j].account,
                                cur1[j].account,
                                cur@[j].account,
                                amount - pool1,
                                share as int,
                            );
                            lemma_gained_widen(
                                s0[j].account,
                                cur@[j].account,
                                amount - pool1 + share,
                                amount as int,
                            );
                        }
                        assert(bal_seq(cur@, 0) <= bal_seq(cur1, 0) + share * (cur1.len() as int));
                        assert(share * (cur1.len() as int) == share * (n2 as int));
                        assert(bal_seq(cur@, 0) <= bal_seq(s0, 0) + amount);
                        if all_leaves(s0) {
                            assert(all_leaves(cur1));
                            assert(bal_seq(cur@, 0) == bal_seq(cur1, 0) + share * (
                            cur1.len() as int));
                            assert(share * (n2 as int) == (n2 as int) * (share as int))
                                by (nonlinear_arith);
                            assert(bal_seq(cur@, 0) == bal_seq(s0, 0) + amount - pool1 + (pool1
                                - (pool1 as int % (n2 as int))));
                            assert(bal_seq(cur@, 0) + (TOLERANCE + 1) * (s0.len() as int)
                                > bal_seq(s0, 0) + amount);
                            lemma_all_leaves_preserved(cur1, cur@, share as int);
                            assert forall|ii: int| 0 <= ii < s0.len() implies bal(
                                #[trigger] cur@[ii].account,
                            ) == bal(s0[ii].account) + node_takes(cs0, amount as int)[ii] by {
                                assert(cur1[ii].account.data is Leaf);
                                assert(bal(cur@[ii].account) == bal(cur1[ii].account) + share);
                                assert(bal(cur1[ii].account) == bal(s0[ii].account) + ft.0[ii]
                                    + target.0[ii]);
                                assert(node_takes(cs0, amount as int)[ii] == ft.0[ii]
                                    + target.0[ii] + share);
                            }
                        }
                    }
                } else {
                    proof {
                        if all_leaves(s0) {
                            assert(pool < (TOLERANCE + 1) * (n2 as int));
                            assert(bal_seq(cur@, 0) + (TOLERANCE + 1) * (s0.len() as int)
                                > bal_seq(s0, 0) + amount);
                            assert forall|ii: int| 0 <= ii < s0.len() implies bal(
                                #[trigger] cur@[ii].account,
                            ) == bal(s0[ii].account) + node_takes(cs0, amount as int)[ii] by {
                                assert(node_takes(cs0, amount as int)[ii] == ft.0[ii]
                                    + target.0[ii]);
                            }
                        }
                    }
                }
            }
            let r = Account { name: a.name, data: AccountType::Branch { children: cur } };
            proof {
                assert forall|j: int| #![trigger cur@[j]]
                    0 <= j < s0.len() implies cur@[j].inflow == s0[j].inflow && gained_at_most(
                    s0[j].account,
                    cur@[j].account,
                    amount as int,
                ) by {
                    if gained_at_most(s0[j].account, cur@[j].account, amount as int) {
                    } else {
                        assert(gained_at_most(s0[j].account, cur@[j].account, amount - pool));
                        lemma_gained_widen(
                            s0[j].account,
                            cur@[j].account,
                            amount - pool,
                            amount as int,
                        );
                    }
                }
                assert(wf_rec(r)) by {
                    assert forall|j: int| #![trigger cur@[j]]
                        0 <= j < cur@.len() implies wf_rec(cur@[j].account) && inflow_ok(
                        cur@[j].inflow,
                    ) by {
                        assert(wf_rec(cur@[j].account) && inflow_ok(cur@[j].inflow) && count(
                            cur@[j].account,
                        ) <= NODE_CAP);
                    }
                }
                assert(flat_deposit_exact(a0, r, amount as int)) by {
                    if all_leaves(s0) {
                        assert forall|ii: int| #![trigger cur@[ii]]
                            0 <= ii < s0.len() implies bal(cur@[ii].account) == bal(
                            s0[ii].account,
                        ) + node_takes(cs0, amount as int)[ii] by {
                            assert(bal(cur@[ii].account) == bal(s0[ii].account) + node_takes(
                                cs0,
                                amount as int,
                            )[ii]);
                        }
                    }
                }
            }
            r
        },
    }
}

impl Account {
    /// Find the path of child indices to the first pre-order match for
    /// `name`: a node's own name is tested before its subtree, and
    /// children are tried in stored order.
    #[verifier::loop_isolation(false)]
    fn path_to(&self, name: &String) -> (r: Option<Vec<usize>>)
        ensures
            match find_path(*self, name@) {
                Some(p) => r matches Some(v) && path_view(v@) == p && path_valid(*self, p),
                None => r is None,
            },
        decreases *self, 1int,
    {
        proof {
            lemma_find_path_sound(*self, name@);
        }
        if self.name == *name {
            let v: Vec<usize> = Vec::new();
            proof {
                assert(path_view(v@) =~= Seq::<int>::empty());
            }
            return Some(v);
        }
        match &self.data {
            AccountType::Leaf { .. } => None,
            AccountType::Branch { children } => {
                let ghost s = children@;
                let n = children.len();
                let mut i: usize = 0;
                while i < n
                    invariant
                        0 <= i <= n,
                        n == s.len(),
                        find_path_seq(s, 0, name@) == find_path_seq(s, i as int, name@),
                    decreases n - i,
                {
                    let sub = children[i].account.path_to(name);
                    match sub {
                        Some(mut v) => {
                            v.insert(0, i);
                            proof {
                                let p = find_path(s[i as int].account, name@).unwrap();
                                assert(path_view(v@) =~= seq![i as int] + p);
                            }
                            return Some(v);
                        },
                        None => {},
                    }
                    i = i + 1;
                }
                None
            },
        }
    }

    /// Walk `path` from index `i` down to the node it denotes.
    fn get_ref(&self, path: &Vec<usize>, i: usize) -> (r: &Account)
        requires
            i <= path@.len(),
            path_valid(*self, path_view(path@).skip(i as int)),
        ensures
            *r == get_at(*self, path_view(path@).skip(i as int)),
        decreases path@.len() - i,
    {
        let ghost p = path_view(path@).skip(i as int);
        if i == path.len() {
            proof {
                assert(p.len() == 0);
            }
            self
        } else {
            match &self.data {
                AccountType::Branch { children } => {
                    let idx = path[i];
                    proof {
                        assert(p[0] == path@[i as int] as int);
                        assert(p.skip(1) =~= path_view(path@).skip(i as int + 1));
                    }
                    children[idx].account.get_ref(path, i + 1)
                },
                AccountType::Leaf { .. } => {
                    proof {
                        assert(false);
                    }
                    self
                },
            }
        }
    }

    /// Look up an account by name: the first match in pre-order, found
    /// deterministically, or nothing when the name is absent.
    pub fn find_child(&self, name: &str) -> (r: Option<&Account>)
        ensures
            match find_path(*self, name@) {
                Some(p) => r matches Some(x) && *x == get_at(*self, p),
                None => r is None,
            },
    {
        let owned: String = name.to_owned();
        match self.path_to(&owned) {
            None => None,
            Some(p) => {
                proof {
                    assert(path_view(p@).skip(0) =~= path_view(p@));
                }
                Some(self.get_ref(&p, 0))
            },
        }
    }

    /// Distribute `amount` into this subtree (see `deposit_core` for
    /// the passes). Never fails; capacity is a soft target, so the
    /// overflow fallback may push balances above `max`.
    ///
    /// The contract pins the outcome at three strengths: a leaf
    /// absorbs the amount exactly; a branch over leaves follows
    /// `node_takes` — the functional description of the fixed pass in
    /// stored order, the proportional flexible rounds and the even
    /// overflow share — child by child, and loses at most one
    /// tolerance plus one quantum per child; a deeper subtree is
    /// bounded relationally (`gained_at_most`): shape, rules and
    /// capacities kept, every subtree's gain between zero and the
    /// amount.
    ///
    /// A deposit is money entering: the distribution's passes are
    /// defined over a non-negative pool (spec guards compare it
    /// against the tolerance), so the amount must not be negative; a
    /// negative adjustment is a withdrawal, which `withdraw` performs
    /// unconditionally in either direction.
    pub fn deposit(&mut self, amount: i64)
        requires
            wf(*old(self)),
            0 <= amount,
            leaves_at_most(*old(self), i64::MAX - amount),
        ensures
            gained_at_most(*old(self), *final(self), amount as int),
            old(self).data is Leaf ==> bal(*final(self)) == bal(*old(self)) + amount,
            old(self).data matches AccountType::Branch { children } ==> ((children@.len() > 0
                && all_leaves(children@)) ==> bal(*final(self)) + (TOLERANCE + 1) * (
            children@.len() as int) > bal(*old(self)) + amount),
            flat_deposit_exact(*old(self), *final(self), amount as int),
            wf(*final(self)),
            count(*final(self)) == count(*old(self)),
            cap(*final(self)) == cap(*old(self)),
    {
        let mut tmp = Account { name: String::new(), data: AccountType::Leaf { balance: 0, max: 0 } };
        core::mem::swap(self, &mut tmp);
        let mut done = deposit_core(tmp, amount);
        core::mem::swap(self, &mut done);
    }

    /// Apply one action against the tree rooted here. All errors are
    /// surfaced immediately; a transfer commits its withdrawal before
    /// attempting the deposit, so a failing deposit does not restore
    /// the withdrawn funds.
    pub fn apply(&mut self, action: Action) -> (r: Result<(), Error>)
        requires
            wf(*old(self)),
            action_ok(*old(self), action),
        ensures
            wf(*final(self)),
            apply_ensures(*old(self), *final(self), action, r),
        decreases (match action {
            Action::Transfer { .. } => 1int,
            _ => 0int,
        }),
    {
        match action {
            Action::New { name, inflow, parent, data } => {
                let patho = self.path_to(&parent);
                match patho {
                    None => Err(Error::NotFound),
                    Some(p) => {
                        let ghost sp = path_view(p@);
                        proof {
                            assert(sp.skip(0) =~= sp);
                        }
                        let is_branch = match &self.get_ref(&p, 0).data {
                            AccountType::Branch { .. } => true,
                            AccountType::Leaf { .. } => false,
                        };
                        if !is_branch {
                            Err(Error::InvalidOperation)
                        } else {
                            let child = Account { name, data };
                            let ghost gchild = child;
                            let mut tmp = Account {
                                name: String::new(),
                                data: AccountType::Leaf { balance: 0, max: 0 },
                            };
                            core::mem::swap(self, &mut tmp);
                            let mut done = append_at(tmp, &p, 0, child, inflow);
                            core::mem::swap(self, &mut done);
                            proof {
                                lemma_appended_at(*old(self), *self, sp, gchild, inflow);
                            }
                            Ok(())
                        }
                    },
                }
            },
            Action::Withdraw { account, amount, .. } => {
                let patho = self.path_to(&account);
                match patho {
                    None => Err(Error::NotFound),
                    Some(p) => {
                        let ghost sp = path_view(p@);
                        proof {
                            assert(sp.skip(0) =~= sp);
                        }
                        let is_leaf = match &self.get_ref(&p, 0).data {
                            AccountType::Leaf { .. } => true,
                            AccountType::Branch { .. } => false,
                        };
                        if !is_leaf {
                            Err(Error::InvalidOperation)
                        } else {
                            let mut tmp = Account {
                                name: String::new(),
                                data: AccountType::Leaf { balance: 0, max: 0 },
                            };
                            core::mem::swap(self, &mut tmp);
                            let mut done = withdraw_at(tmp, &p, 0, amount);
                            core::mem::swap(self, &mut done);
                            proof {
                                lemma_withdrawn_at(*old(self), *self, sp, amount as int);
                            }
                            Ok(())
                        }
                    },
                }
            },
            Action::Deposit { account, amount, .. } => {
                match account {
                    Some(target) => {
                        let patho = self.path_to(&target);
                        match patho {
                            None => Err(Error::NotFound),
                            Some(p) => {
                                let ghost sp = path_view(p@);
                                proof {
                                    assert(sp.skip(0) =~= sp);
                                }
                                let mut tmp = Account {
                                    name: String::new(),
                                    data: AccountType::Leaf { balance: 0, max: 0 },
                                };
                                core::mem::swap(self, &mut tmp);
                                let mut done = deposit_at(tmp, &p, 0, amount);
                                core::mem::swap(self, &mut done);
                                proof {
                                    lemma_deposited_at(*old(self), *self, sp, amount as int);
                                }
                                Ok(())
                            },
                        }
                    },
                    None => {
                        self.deposit(amount);
                        proof {
                            assert(deposited_at(
                                *old(self),
                                *self,
                                Seq::<int>::empty(),
                                amount as int,
                            ));
                        }
                        Ok(())
                    },
                }
            },
            Action::Transfer { from, to, amount, date } => {
                let ghost gfrom = from@;
                let r1 = self.apply(Action::Withdraw { account: from, amount, date });
                match r1 {
                    Err(e) => Err(e),
                    Ok(()) => {
                        let ghost mid = *self;
                        proof {
                            let p0 = find_path(*old(self), gfrom).unwrap();
                            assert(withdrawn_at(*old(self), mid, p0, amount as int));
                            lemma_withdrawn_at(*old(self), mid, p0, amount as int);
                            assert(leaves_at_most(mid, i64::MAX - amount));
                        }
                        let r2 = self.apply(Action::Deposit { account: to, amount, date });
                        r2
                    },
                }
            },
        }
    }
}

/// Debit the leaf that `path[i..]` points at by `amount`, leaving
/// every other node untouched.
fn withdraw_at(a: Account, path: &Vec<usize>, i: usize, amount: i64) -> (r: Account)
    requires
        i <= path@.len(),
        path_valid(a, path_view(path@).skip(i as int)),
        get_at(a, path_view(path@).skip(i as int)).data matches AccountType::Leaf {
            balance,
            ..
        } && i64::MIN <= balance - amount <= i64::MAX,
    ensures
        withdrawn_at(a, r, path_view(path@).skip(i as int), amount as int),
    decreases path@.len() - i,
{
    let ghost p = path_view(path@).skip(i as int);
    if i == path.len() {
        proof {
            assert(p.len() == 0);
        }
        match a {
            Account { name, data: AccountType::Leaf { balance, max } } => {
                Account { name, data: AccountType::Leaf { balance: balance - amount, max } }
            },
            Account { name, data } => {
                proof {
                    assert(false);
                }
                Account { name, data }
            },
        }
    } else {
        proof {
            assert(p[0] == path@[i as int] as int);
            assert(p.skip(1) =~= path_view(path@).skip(i as int + 1));
        }
        match a {
            Account { name, data: AccountType::Branch { mut children } } => {
                let ghost c1 = children@;
                let idx = path[i];
                let e = children.remove(idx);
                let acc2 = withdraw_at(e.account, path, i + 1, amount);
                children.insert(idx, BranchEntry { account: acc2, inflow: e.inflow });
                proof {
                    assert(children@ =~= c1.update(
                        idx as int,
                        BranchEntry { account: acc2, inflow: e.inflow },
                    ));
                }
                Account { name, data: AccountType::Branch { children } }
            },
            Account { name, data } => {
                proof {
                    assert(false);
                }
                Account { name, data }
            },
        }
    }
}

/// Attach `child` with rule `inflow` as the last child of the branch
/// that `path[i..]` points at.
fn append_at(a: Account, path: &Vec<usize>, i: usize, child: Account, inflow: Inflow) -> (r:
    Account)
    requires
        i <= path@.len(),
        path_valid(a, path_view(path@).skip(i as int)),
        get_at(a, path_view(path@).skip(i as int)).data is Branch,
    ensures
        appended_at(a, r, path_view(path@).skip(i as int), child, inflow),
    decreases path@.len() - i,
{
    let ghost p = path_view(path@).skip(i as int);
    if i == path.len() {
        proof {
            assert(p.len() == 0);
        }
        match a {
            Account { name, data: AccountType::Branch { mut children } } => {
                children.push(BranchEntry { account: child, inflow });
                Account { name, data: AccountType::Branch { children } }
            },
            Account { name, data } => {
                proof {
                    assert(false);
                }
                Account { name, data }
            },
        }
    } else {
        proof {
            assert(p[0] == path@[i as int] as int);
            assert(p.skip(1) =~= path_view(path@).skip(i as int + 1));
        }
        match a {
            Account { name, data: AccountType::Branch { mut children } } => {
                let ghost c1 = children@;
                let idx = path[i];
                let e = children.remove(idx);
                let acc2 = append_at(e.account, path, i + 1, child, inflow);
                children.insert(idx, BranchEntry { account: acc2, inflow: e.inflow });
                proof {
                    assert(children@ =~= c1.update(
                        idx as int,
                        BranchEntry { account: acc2, inflow: e.inflow },
                    ));
                }
                Account { name, data: AccountType::Branch { children } }
            },
            Account { name, data } => {
                proof {
                    assert(false);
                }
                Account { name, data }
            },
        }
    }
}

/// Run the deposit distribution against the subtree that `path[i..]`
/// points at, leaving every node off the path untouched.
fn deposit_at(a: Account, path: &Vec<usize>, i: usize, amount: i64) -> (r: Account)
    requires
        i <= path@.len(),
        path_valid(a, path_view(path@).skip(i as int)),
        wf_rec(a),
        count(a) <= NODE_CAP,
        0 <= amount,
        leaves_at_most(a, i64::MAX - amount),
    ensures
        deposited_at(a, r, path_view(path@).skip(i as int), amount as int),
    decreases path@.len() - i,
{
    let ghost p = path_view(path@).skip(i as int);
    if i == path.len() {
        proof {
            assert(p.len() == 0);
        }
        deposit_core(a, amount)
    } else {
        proof {
            assert(p[0] == path@[i as int] as int);
            assert(p.skip(1) =~= path_view(path@).skip(i as int + 1));
        }
        match a {
            Account { name, data: AccountType::Branch { mut children } } => {
                let ghost c1 = children@;
                let idx = path[i];
                proof {
                    assert(wf_rec(c1[idx as int].account) && inflow_ok(c1[idx as int].inflow));
                    lemma_count_seq_le(c1, 0, idx as int);
                    assert(leaves_at_most(c1[idx as int].account, i64::MAX - amount));
                }
                let e = children.remove(idx);
                let acc2 = deposit_at(e.account, path, i + 1, amount);
                children.insert(idx, BranchEntry { account: acc2, inflow: e.inflow });
                proof {
                    assert(children@ =~= c1.update(
                        idx as int,
                        BranchEntry { account: acc2, inflow: e.inflow },
                    ));
                }
                Account { name, data: AccountType::Branch { children } }
            },
            Account { name, data } => {
                proof {
                    assert(false);
                }
                Account { name, data }
            },
        }
    }
}

/// One line of the pre-order rendering hook: a node's name, its
/// aggregate balance and its depth in the tree.
#[derive(Debug)]
pub struct NodeLine {
    pub name: String,
    pub balance: i128,
    pub depth: u64,
}

impl NodeLine {
    /// This line carries exactly the given rendered node.
    pub open spec fn matches_line(self, l: (Seq<char>, int, int)) -> bool {
        self.name@ == l.0 && self.balance == l.1 && self.depth == l.2
    }
}

/// The produced lines agree, one for one, with the rendering `l`.
pub open spec fn lines_match(v: Seq<NodeLine>, l: Seq<(Seq<char>, int, int)>) -> bool {
    v.len() == l.len() && forall|i: int| #![trigger v[i]]
        0 <= i < l.len() ==> v[i].matches_line(l[i])
}

impl Account {
    /// The presentation hook: every node's name, aggregate balance and
    /// depth, in pre-order. Formatting and printing stay with the
    /// caller; the balances come from the verified summation.
    pub fn render_lines(&self) -> (r: Vec<NodeLine>)
        requires
            wf(*self),
        ensures
            lines_match(r@, lines_of(*self, 0)),
    {
        let mut out: Vec<NodeLine> = Vec::new();
        self.render_into(0, &mut out);
        proof {
            assert(out@.skip(0) =~= out@);
        }
        out
    }

    /// Append this subtree's pre-order lines to `out`.
    #[verifier::loop_isolation(false)]
    fn render_into(&self, depth: u64, out: &mut Vec<NodeLine>)
        requires
            wf_rec(*self),
            count(*self) <= NODE_CAP,
            depth + count(*self) <= 0x2_0000_0000,
        ensures
            final(out)@.len() == old(out)@.len() + lines_of(*self, depth as int).len(),
            forall|j: int| 0 <= j < old(out)@.len() ==> final(out)@[j] == #[trigger] old(out)@[j],
            lines_match(
                final(out)@.skip(old(out)@.len() as int),
                lines_of(*self, depth as int),
            ),
        decreases *self, 1int,
    {
        let ghost base = out@.len() as int;
        let ghost head: (Seq<char>, int, int) = (self.name@, bal(*self), depth as int);
        let b = self.balance_wide();
        let line = NodeLine { name: self.name.clone(), balance: b, depth };
        out.push(line);
        match &self.data {
            AccountType::Leaf { .. } => {
                proof {
                    assert(lines_of(*self, depth as int) =~= seq![head]);
                    assert(out@.skip(base) =~= seq![out@[base]]);
                }
            },
            AccountType::Branch { children } => {
                let ghost s = children@;
                let ghost d = depth as int + 1;
                let ghost mut done = Seq::<(Seq<char>, int, int)>::empty();
                proof {
                    assert(done + lines_seq(s, 0, d) =~= lines_seq(s, 0, d));
                }
                let n = children.len();
                let mut i: usize = 0;
                while i < n
                    invariant
                        0 <= i <= n,
                        n == s.len(),
                        out@.len() == base + 1 + done.len(),
                        forall|j: int| 0 <= j < base ==> out@[j] == #[trigger] old(out)@[j],
                        out@[base].matches_line(head),
                        lines_match(out@.skip(base + 1), done),
                        done + lines_seq(s, i as int, d) == lines_seq(s, 0, d),
                    decreases n - i,
                {
                    let ghost out_before = out@;
                    let ghost done_before = done;
                    let c = &children[i];
                    proof {
                        assert(wf_rec(c.account) && inflow_ok(c.inflow));
                        lemma_count_seq_le(s, 0, i as int);
                    }
                    c.account.render_into(depth + 1, out);
                    proof {
                        let li = lines_of(s[i as int].account, d);
                        done = done + li;
                        assert(done_before + (li + lines_seq(s, i as int + 1, d)) == lines_seq(
                            s,
                            0,
                            d,
                        ));
                        assert(done + lines_seq(s, i as int + 1, d) =~= lines_seq(s, 0, d));
                        assert(lines_match(out@.skip(base + 1), done)) by {
                            assert(out@.skip(base + 1).len() == done.len());
                            assert forall|j: int| 0 <= j < done.len() implies out@.skip(
                                base + 1,
                            )[j].matches_line(done[j]) by {
                                assert(out@.skip(base + 1)[j] == out@[base + 1 + j]);
                                if j < done_before.len() {
                                    assert(out@[base + 1 + j] == out_before[base + 1 + j]);
                                    assert(out_before.skip(base + 1)[j] == out_before[base + 1
                                        + j]);
                                    assert(out_before.skip(base + 1)[j].matches_line(
                                        done_before[j],
                                    ));
                                    assert(done[j] == done_before[j]);
                                } else {
                                    let jj = j - done_before.len();
                                    assert(out@.skip(out_before.len() as int)[jj] == out@[
                                        out_before.len() + jj]);
                                    assert(out@.skip(out_before.len() as int)[jj].matches_line(
                                        li[jj],
                                    ));
                                    assert(base + 1 + j == out_before.len() + jj);
                                    assert(done[j] == li[jj]);
                                }
                            }
                        }
                        assert(out@[base] == out_before[base]);
                    }
                    i = i + 1;
                }
                proof {
                    assert(lines_seq(s, n as int, d) =~= Seq::<(Seq<char>, int, int)>::empty());
                    assert(done =~= done + lines_seq(s, n as int, d));
                    assert(done == lines_seq(s, 0, d));
                    assert(lines_of(*self, depth as int) =~= seq![head] + lines_seq(s, 0, d));
                    assert(lines_match(out@.skip(base), lines_of(*self, depth as int))) by {
                        assert(out@.skip(base).len() == 1 + done.len());
                        assert forall|j: int| 0 <= j < 1 + done.len() implies out@.skip(
                            base,
                        )[j].matches_line((seq![head] + lines_seq(s, 0, d))[j]) by {
                            assert(out@.skip(base)[j] == out@[base + j]);
                            if j == 0 {
                                assert((seq![head] + lines_seq(s, 0, d))[0] == head);
                            } else {
                                assert(out@.skip(base + 1)[j - 1] == out@[base + j]);
                                assert(out@.skip(base + 1)[j - 1].matches_line(done[j - 1]));
                                assert((seq![head] + lines_seq(s, 0, d))[j] == done[j - 1]);
                            }
                        }
                    }
                }
            },
        }
    }
}

/// Executable test of `data_wf`: whether a subtree's data is
/// structurally well formed.
#[verifier::loop_isolation(false)]
fn wf_data_check(d: &AccountType) -> (r: bool)
    ensures
        r == data_wf(*d),
    decreases *d, 1int,
{
    match d {
        AccountType::Leaf { max, .. } => *max >= 0,
        AccountType::Branch { children } => {
            let n = children.len();
            let mut i: usize = 0;
            while i < n
                invariant
                    0 <= i <= n,
                    n == children@.len(),
                    forall|j: int| #![trigger children@[j]]
                        0 <= j < i ==> data_wf(children@[j].account.data) && inflow_ok(
                            children@[j].inflow,
                        ),
                decreases n - i,
            {
                let e = &children[i];
                let iok = match e.inflow {
                    Inflow::Fixed(x) => x >= 0,
                    Inflow::Flex(x) => x >= 0,
                };
                if !iok || !wf_data_check(&e.account.data) {
                    return false;
                }
                i = i + 1;
            }
            true
        },
    }
}

/// Executable node count, clamped just above the bound so that it can
/// never overflow however deep the tree is.
#[verifier::loop_isolation(false)]
fn count_capped_data(d: &AccountType) -> (r: u64)
    ensures
        r as nat == capped(data_count(*d)),
    decreases *d, 1int,
{
    match d {
        AccountType::Leaf { .. } => 1,
        AccountType::Branch { children } => {
            let n = children.len();
            let mut acc: u64 = 1;
            let mut i: usize = 0;
            let ghost mut pre: nat = 0;
            while i < n
                invariant
                    0 <= i <= n,
                    n == children@.len(),
                    pre + data_count_seq(children@, i as int) == data_count_seq(children@, 0),
                    acc as nat == capped(1 + pre),
                    acc <= NODE_CAP + 1,
                decreases n - i,
            {
                let c = count_capped_data(&children[i].account.data);
                proof {
                    assert(data_count_seq(children@, i as int) == data_count(
                        children@[i as int].account.data,
                    ) + data_count_seq(children@, i as int + 1));
                    assert(data_count(children@[i as int].account.data) >= 1) by {
                        if children@[i as int].account.data is Leaf {
                        } else {
                        }
                    }
                    pre = pre + data_count(children@[i as int].account.data);
                }
                let sum = acc + c;
                if sum > NODE_CAP {
                    acc = NODE_CAP + 1;
                } else {
                    acc = sum;
                }
                i = i + 1;
            }
            proof {
                assert(data_count_seq(children@, n as int) == 0);
            }
            acc
        },
    }
}

impl Account {
    /// Executable test of `wf`: whether this tree is one the verified
    /// operations accept. Callers outside the verifier can use it to
    /// establish the precondition of `balance`, `deposit`, `apply` and
    /// `render_lines` for a tree of unknown provenance.
    pub fn check_wf(&self) -> (r: bool)
        ensures
            r == wf(*self),
    {
        proof {
            lemma_data_view(*self);
        }
        wf_data_check(&self.data) && count_capped_data(&self.data) <= NODE_CAP
    }

    /// Executable test of `leaves_at_most`: whether every leaf balance
    /// in this tree is at most `b`.
    #[verifier::loop_isolation(false)]
    pub fn leaves_within(&self, b: i64) -> (r: bool)
        ensures
            r == leaves_at_most(*self, b as int),
        decreases *self, 1int,
    {
        match &self.data {
            AccountType::Leaf { balance, .. } => *balance <= b,
            AccountType::Branch { children } => {
                let n = children.len();
                let mut i: usize = 0;
                while i < n
                    invariant
                        0 <= i <= n,
                        n == children@.len(),
                        forall|j: int| #![trigger children@[j]]
                            0 <= j < i ==> leaves_at_most(children@[j].account, b as int),
                    decreases n - i,
                {
                    if !children[i].account.leaves_within(b) {
                        return false;
                    }
                    i = i + 1;
                }
                true
            },
        }
    }

    /// Executable test of `action_ok`: whether `apply` accepts this
    /// action against this tree. Callers outside the verifier can test
    /// it before calling `apply`.
    pub fn check_action(&self, action: &Action) -> (r: bool)
        ensures
            r == action_ok(*self, *action),
    {
        match action {
            Action::New { name, inflow, parent, data } => {
                proof {
                    lemma_data_view(*self);
                    lemma_data_view(Account { name: *name, data: *data });
                }
                let iok = match inflow {
                    Inflow::Fixed(x) => *x >= 0,
                    Inflow::Flex(x) => *x >= 0,
                };
                iok && wf_data_check(data) && count_capped_data(&self.data) <= NODE_CAP
                    && count_capped_data(data) <= NODE_CAP && count_capped_data(&self.data)
                    + count_capped_data(data) <= NODE_CAP
            },
            Action::Withdraw { account, amount, .. } => {
                match self.path_to(account) {
                    None => true,
                    Some(p) => {
                        proof {
                            lemma_find_path_sound(*self, account@);
                            assert(path_view(p@).skip(0) =~= path_view(p@));
                        }
                        match &self.get_ref(&p, 0).data {
                            AccountType::Leaf { balance, .. } => {
                                if *amount >= 0 {
                                    *balance >= i64::MIN + *amount
                                } else {
                                    *balance <= i64::MAX + *amount
                                }
                            },
                            AccountType::Branch { .. } => true,
                        }
                    },
                }
            },
            Action::Deposit { amount, .. } => {
                if *amount < 0 {
                    false
                } else {
                    self.leaves_within(i64::MAX - *amount)
                }
            },
            Action::Transfer { from, amount, .. } => {
                if *amount < 0 {
                    false
                } else if !self.leaves_within(i64::MAX - *amount) {
                    false
                } else {
                    match self.path_to(from) {
                        None => true,
                        Some(p) => {
                            proof {
                                lemma_find_path_sound(*self, from@);
                                assert(path_view(p@).skip(0) =~= path_view(p@));
                            }
                            match &self.get_ref(&p, 0).data {
                                AccountType::Leaf { balance, .. } => *balance >= i64::MIN
                                    + *amount,
                                AccountType::Branch { .. } => true,
                            }
                        },
                    }
                }
            },
        }
    }
}

} // verus!
