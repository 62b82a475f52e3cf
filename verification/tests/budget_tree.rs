//! Behavioural tests for the budget tree. Amounts are integers in
//! hundredths of a currency unit: `300` is three units.

use budget_tree::account::{Account, AccountType, Action, Error, Inflow};
use budget_tree::date::Date;

fn day() -> Date {
    Date::new(2024, 1, 1)
}

fn leaf(balance: i64, max: i64) -> AccountType {
    AccountType::Leaf { balance, max }
}

fn new_leaf(tree: &mut Account, name: &str, parent: &str, inflow: Inflow, balance: i64, max: i64) {
    let r = tree.apply(Action::New {
        name: name.to_owned(),
        inflow,
        parent: parent.to_owned(),
        data: leaf(balance, max),
    });
    assert!(r.is_ok());
}

fn new_branch(tree: &mut Account, name: &str, parent: &str, inflow: Inflow) {
    let r = tree.apply(Action::New {
        name: name.to_owned(),
        inflow,
        parent: parent.to_owned(),
        data: AccountType::Branch { children: Vec::new() },
    });
    assert!(r.is_ok());
}

fn deposit_to(tree: &mut Account, target: Option<&str>, amount: i64) {
    let r = tree.apply(Action::Deposit {
        account: target.map(|s| s.to_owned()),
        amount,
        date: day(),
    });
    assert!(r.is_ok());
}

fn balance_of(tree: &Account, name: &str) -> i128 {
    tree.find_child(name).expect("account should exist").balance()
}

#[test]
fn new_root_is_empty_branch() {
    let root = Account::new_root();
    assert_eq!(root.balance(), 0);
    assert!(root.find_child("root").is_some());
    assert!(root.find_child("absent").is_none());
}

#[test]
fn fixed_priority_takes_before_flex() {
    // One Fixed(5) child and one Flex(1) child, both at 0 with ample
    // capacity: depositing 3 places all 3 into the fixed child.
    let mut t = Account::new_root();
    new_leaf(&mut t, "fixed", "root", Inflow::Fixed(500), 0, 1_000_000);
    new_leaf(&mut t, "flex", "root", Inflow::Flex(1), 0, 1_000_000);
    deposit_to(&mut t, None, 300);
    assert_eq!(balance_of(&t, "fixed"), 300);
    assert_eq!(balance_of(&t, "flex"), 0);
}

#[test]
fn flex_split_is_proportional_to_weights() {
    // Two Flex children with weights 1 and 3 and ample capacity:
    // depositing 40 yields balances in ratio 1:3.
    let mut t = Account::new_root();
    new_leaf(&mut t, "light", "root", Inflow::Flex(1), 0, 1_000_000);
    new_leaf(&mut t, "heavy", "root", Inflow::Flex(3), 0, 1_000_000);
    deposit_to(&mut t, None, 4000);
    assert_eq!(balance_of(&t, "light"), 1000);
    assert_eq!(balance_of(&t, "heavy"), 3000);
    assert_eq!(t.balance(), 4000);
}

#[test]
fn conservation_with_ample_headroom() {
    // Headroom well above the deposit: the aggregate balance rises by
    // exactly the amount and no child ends above its ceiling.
    let mut t = Account::new_root();
    new_leaf(&mut t, "a", "root", Inflow::Fixed(700), 0, 2_000);
    new_leaf(&mut t, "b", "root", Inflow::Flex(2), 0, 10_000);
    new_leaf(&mut t, "c", "root", Inflow::Flex(5), 0, 10_000);
    deposit_to(&mut t, None, 7_700);
    assert_eq!(t.balance(), 7_700);
    assert_eq!(balance_of(&t, "a"), 700);
    assert_eq!(balance_of(&t, "b"), 2_000);
    assert_eq!(balance_of(&t, "c"), 5_000);
    assert!(balance_of(&t, "a") <= 2_000);
    assert!(balance_of(&t, "b") <= 10_000);
    assert!(balance_of(&t, "c") <= 10_000);
}

#[test]
fn flex_child_at_max_receives_nothing() {
    // A Flex child already at its ceiling contributes no weight,
    // however large its nominal weight is.
    let mut t = Account::new_root();
    new_leaf(&mut t, "full", "root", Inflow::Flex(1000), 500, 500);
    new_leaf(&mut t, "open", "root", Inflow::Flex(1), 0, 10_000);
    deposit_to(&mut t, None, 2_000);
    assert_eq!(balance_of(&t, "full"), 500);
    assert_eq!(balance_of(&t, "open"), 2_000);
}

#[test]
fn all_children_at_max_triggers_even_overflow() {
    // With every child at capacity the residual is split evenly over
    // all children, pushing them above max.
    let mut t = Account::new_root();
    new_leaf(&mut t, "x", "root", Inflow::Flex(1), 100, 100);
    new_leaf(&mut t, "y", "root", Inflow::Fixed(50), 200, 200);
    new_leaf(&mut t, "z", "root", Inflow::Flex(9), 300, 300);
    deposit_to(&mut t, None, 600);
    assert_eq!(balance_of(&t, "x"), 300);
    assert_eq!(balance_of(&t, "y"), 400);
    assert_eq!(balance_of(&t, "z"), 500);
    assert_eq!(t.balance(), 1_200);
}

#[test]
fn withdraw_from_branch_fails_and_changes_nothing() {
    let mut t = Account::new_root();
    new_branch(&mut t, "bucket", "root", Inflow::Flex(1));
    new_leaf(&mut t, "inner", "bucket", Inflow::Flex(1), 400, 1_000);
    let r = t.apply(Action::Withdraw { account: "bucket".to_owned(), amount: 100, date: day() });
    assert_eq!(r, Err(Error::InvalidOperation));
    assert_eq!(t.balance(), 400);
    assert_eq!(balance_of(&t, "inner"), 400);
}

#[test]
fn lookup_returns_first_preorder_match() {
    // Two accounts named "dup": one deep inside the first child, one
    // as a direct child of the root. Pre-order finds the deep one
    // first, because the first child's subtree is searched before the
    // second sibling is examined.
    let mut t = Account::new_root();
    new_branch(&mut t, "first", "root", Inflow::Flex(1));
    new_leaf(&mut t, "dup", "first", Inflow::Flex(1), 111, 10_000);
    new_leaf(&mut t, "dup", "root", Inflow::Flex(1), 222, 10_000);
    assert_eq!(balance_of(&t, "dup"), 111);
    // Repeated calls resolve identically.
    assert_eq!(balance_of(&t, "dup"), 111);
    // A name-addressed deposit lands on the same first match.
    deposit_to(&mut t, Some("dup"), 39);
    assert_eq!(balance_of(&t, "dup"), 150);
}

#[test]
fn transfer_to_missing_target_loses_the_amount() {
    // The withdrawal commits before the deposit is attempted; when the
    // target does not exist the amount is gone from the tree.
    let mut t = Account::new_root();
    new_leaf(&mut t, "src", "root", Inflow::Flex(1), 1_000, 10_000);
    let r = t.apply(Action::Transfer {
        from: "src".to_owned(),
        to: Some("nowhere".to_owned()),
        amount: 250,
        date: day(),
    });
    assert_eq!(r, Err(Error::NotFound));
    assert_eq!(balance_of(&t, "src"), 750);
    assert_eq!(t.balance(), 750);
}

#[test]
fn transfer_moves_between_leaves() {
    let mut t = Account::new_root();
    new_leaf(&mut t, "src", "root", Inflow::Flex(1), 1_000, 10_000);
    new_leaf(&mut t, "dst", "root", Inflow::Flex(1), 0, 10_000);
    let r = t.apply(Action::Transfer {
        from: "src".to_owned(),
        to: Some("dst".to_owned()),
        amount: 300,
        date: day(),
    });
    assert!(r.is_ok());
    assert_eq!(balance_of(&t, "src"), 700);
    assert_eq!(balance_of(&t, "dst"), 300);
    assert_eq!(t.balance(), 1_000);
}

#[test]
fn withdraw_may_overdraw_a_leaf() {
    let mut t = Account::new_root();
    new_leaf(&mut t, "thin", "root", Inflow::Flex(1), 100, 1_000);
    let r = t.apply(Action::Withdraw { account: "thin".to_owned(), amount: 400, date: day() });
    assert!(r.is_ok());
    assert_eq!(balance_of(&t, "thin"), -300);
}

#[test]
fn withdraw_from_missing_account_reports_not_found() {
    let mut t = Account::new_root();
    let r = t.apply(Action::Withdraw { account: "ghostly".to_owned(), amount: 1, date: day() });
    assert_eq!(r, Err(Error::NotFound));
}

#[test]
fn deposit_without_target_fills_the_root() {
    let mut t = Account::new_root();
    new_leaf(&mut t, "only", "root", Inflow::Flex(1), 0, 10_000);
    deposit_to(&mut t, None, 123);
    assert_eq!(balance_of(&t, "only"), 123);
}

#[test]
fn deposit_to_missing_target_reports_not_found() {
    let mut t = Account::new_root();
    let r = t.apply(Action::Deposit { account: Some("nope".to_owned()), amount: 5, date: day() });
    assert_eq!(r, Err(Error::NotFound));
    assert_eq!(t.balance(), 0);
}

#[test]
fn deposit_directly_to_a_leaf_adds_exactly() {
    // A leaf target absorbs the whole amount with no distribution and
    // no capacity check.
    let mut t = Account::new_root();
    new_leaf(&mut t, "pocket", "root", Inflow::Flex(1), 0, 100);
    deposit_to(&mut t, Some("pocket"), 5_000);
    assert_eq!(balance_of(&t, "pocket"), 5_000);
}

#[test]
fn new_under_missing_parent_reports_not_found() {
    let mut t = Account::new_root();
    let r = t.apply(Action::New {
        name: "orphan".to_owned(),
        inflow: Inflow::Flex(1),
        parent: "absent".to_owned(),
        data: leaf(0, 100),
    });
    assert_eq!(r, Err(Error::NotFound));
}

#[test]
fn new_under_leaf_parent_is_invalid() {
    let mut t = Account::new_root();
    new_leaf(&mut t, "flat", "root", Inflow::Flex(1), 0, 100);
    let r = t.apply(Action::New {
        name: "child".to_owned(),
        inflow: Inflow::Flex(1),
        parent: "flat".to_owned(),
        data: leaf(0, 100),
    });
    assert_eq!(r, Err(Error::InvalidOperation));
}

#[test]
fn add_child_on_leaf_is_invalid() {
    let mut l = Account::new_root();
    new_leaf(&mut l, "solo", "root", Inflow::Flex(1), 0, 100);
    // Reach the leaf through apply; adding under it must fail.
    let r = l.apply(Action::New {
        name: "sub".to_owned(),
        inflow: Inflow::Fixed(1),
        parent: "solo".to_owned(),
        data: leaf(0, 100),
    });
    assert_eq!(r, Err(Error::InvalidOperation));
}

#[test]
fn fixed_take_is_capped_by_capacity() {
    // Fixed(5) against a ceiling of 2: the fixed pass takes only the
    // headroom; the rest flows to the flexible sibling.
    let mut t = Account::new_root();
    new_leaf(&mut t, "capped", "root", Inflow::Fixed(500), 0, 200);
    new_leaf(&mut t, "rest", "root", Inflow::Flex(1), 0, 10_000);
    deposit_to(&mut t, None, 1_000);
    assert_eq!(balance_of(&t, "capped"), 200);
    assert_eq!(balance_of(&t, "rest"), 800);
}

#[test]
fn flex_refills_after_saturation() {
    // The first flexible round saturates the small child; the loop
    // re-splits the remainder among those still open.
    let mut t = Account::new_root();
    new_leaf(&mut t, "small", "root", Inflow::Flex(1), 0, 100);
    new_leaf(&mut t, "large", "root", Inflow::Flex(1), 0, 10_000);
    deposit_to(&mut t, None, 1_000);
    assert_eq!(balance_of(&t, "small"), 100);
    assert_eq!(balance_of(&t, "large"), 900);
}

#[test]
fn residue_at_or_below_tolerance_is_dropped() {
    // A deposit of one hundredth is below every pass's threshold: the
    // flexible loop does not start and the fallback share of 1 is not
    // above the tolerance, so the amount is abandoned.
    let mut t = Account::new_root();
    new_leaf(&mut t, "only", "root", Inflow::Flex(1), 0, 10_000);
    deposit_to(&mut t, None, 1);
    assert_eq!(t.balance(), 0);
}

#[test]
fn nested_branch_distributes_recursively() {
    let mut t = Account::new_root();
    new_branch(&mut t, "house", "root", Inflow::Flex(1));
    new_leaf(&mut t, "rent", "house", Inflow::Fixed(900), 0, 900);
    new_leaf(&mut t, "power", "house", Inflow::Flex(1), 0, 10_000);
    new_leaf(&mut t, "fun", "root", Inflow::Flex(1), 0, 10_000);
    // house and fun split 2:...: both Flex(1), so half each after no
    // fixed children at the root level.
    deposit_to(&mut t, None, 2_000);
    assert_eq!(balance_of(&t, "house"), 1_000);
    assert_eq!(balance_of(&t, "rent"), 900);
    assert_eq!(balance_of(&t, "power"), 100);
    assert_eq!(balance_of(&t, "fun"), 1_000);
    assert_eq!(t.balance(), 2_000);
}

#[test]
fn deposit_into_childless_branch_vanishes() {
    // A branch with no children has nowhere to place the money; the
    // deposit succeeds and the amount is simply not retained.
    let mut t = Account::new_root();
    deposit_to(&mut t, None, 500);
    assert_eq!(t.balance(), 0);
}

#[test]
fn transfer_without_target_deposits_at_root() {
    let mut t = Account::new_root();
    new_leaf(&mut t, "src", "root", Inflow::Fixed(0), 1_000, 10_000);
    new_leaf(&mut t, "sink", "root", Inflow::Flex(1), 0, 10_000);
    let r = t.apply(Action::Transfer { from: "src".to_owned(), to: None, amount: 400, date: day() });
    assert!(r.is_ok());
    assert_eq!(balance_of(&t, "src"), 600);
    assert_eq!(balance_of(&t, "sink"), 400);
    assert_eq!(t.balance(), 1_000);
}

#[test]
fn direct_methods_mirror_the_actions() {
    let mut t = Account::new_root();
    let child = Account {
        name: "wallet".to_owned(),
        data: AccountType::Leaf { balance: 0, max: 5_000 },
    };
    assert!(t.add_child(child, Inflow::Flex(1)).is_ok());
    t.deposit(1_234);
    assert_eq!(t.balance(), 1_234);
    let wallet = t.find_child("wallet").expect("wallet exists");
    assert_eq!(wallet.balance(), 1_234);
    // add_child on a leaf refuses; withdraw on a branch refuses.
    let mut lone = Account {
        name: "lone".to_owned(),
        data: AccountType::Leaf { balance: 50, max: 100 },
    };
    let extra = Account {
        name: "extra".to_owned(),
        data: AccountType::Leaf { balance: 0, max: 1 },
    };
    assert_eq!(lone.add_child(extra, Inflow::Fixed(1)), Err(Error::InvalidOperation));
    assert_eq!(t.withdraw(10), Err(Error::InvalidOperation));
    assert!(lone.withdraw(20).is_ok());
    assert_eq!(lone.balance(), 30);
}

#[test]
fn render_lines_walks_preorder_with_depths() {
    let mut t = Account::new_root();
    new_branch(&mut t, "house", "root", Inflow::Flex(1));
    new_leaf(&mut t, "rent", "house", Inflow::Fixed(900), 150, 900);
    new_leaf(&mut t, "fun", "root", Inflow::Flex(1), 50, 10_000);
    let lines = t.render_lines();
    let got: Vec<(String, i128, u64)> =
        lines.into_iter().map(|l| (l.name, l.balance, l.depth)).collect();
    assert_eq!(
        got,
        vec![
            ("root".to_owned(), 200, 0),
            ("house".to_owned(), 150, 1),
            ("rent".to_owned(), 150, 2),
            ("fun".to_owned(), 50, 1),
        ]
    );
}

#[test]
fn heavy_weights_beyond_pool_stay_proportional() {
    // The total flexible weight far exceeds the pool: shares are taken
    // in proportion from the round's pool, not abandoned to the even
    // fallback. Weights 1 and 9999 over a pool of 1000 give 0 and 999;
    // the last unit is below the tolerance and is dropped.
    let mut t = Account::new_root();
    new_leaf(&mut t, "tiny", "root", Inflow::Flex(1), 0, 100);
    new_leaf(&mut t, "huge", "root", Inflow::Flex(9999), 0, 1_000_000);
    deposit_to(&mut t, None, 1_000);
    assert_eq!(balance_of(&t, "tiny"), 0);
    assert_eq!(balance_of(&t, "huge"), 999);
    assert_eq!(t.balance(), 999);
    // The tiny child's small ceiling was never threatened.
    assert!(balance_of(&t, "tiny") <= 100);
}

#[test]
fn overflow_share_of_one_unit_is_distributed() {
    // All children at capacity and a residual above one unit per
    // child's tolerance: a whole-unit share reaches every child even
    // when it is exactly one unit.
    let mut t = Account::new_root();
    new_leaf(&mut t, "p", "root", Inflow::Flex(1), 10, 10);
    new_leaf(&mut t, "q", "root", Inflow::Flex(1), 10, 10);
    new_leaf(&mut t, "r", "root", Inflow::Flex(1), 10, 10);
    deposit_to(&mut t, None, 4);
    assert_eq!(balance_of(&t, "p"), 11);
    assert_eq!(balance_of(&t, "q"), 11);
    assert_eq!(balance_of(&t, "r"), 11);
    assert_eq!(t.balance(), 33);
}

#[test]
fn validators_accept_built_trees_and_reject_bad_ones() {
    let mut t = Account::new_root();
    new_leaf(&mut t, "a", "root", Inflow::Flex(1), 0, 1_000);
    assert!(t.check_wf());
    assert!(t.check_action(&Action::Deposit { account: None, amount: 5, date: day() }));
    assert!(!t.check_action(&Action::Deposit { account: None, amount: -5, date: day() }));
    assert!(t.check_action(&Action::Withdraw { account: "a".to_owned(), amount: -7, date: day() }));
    // A negative capacity is not well formed.
    let bad = Account {
        name: "broken".to_owned(),
        data: AccountType::Leaf { balance: 0, max: -1 },
    };
    assert!(!bad.check_wf());
    assert!(!t.check_action(&Action::New {
        name: "broken".to_owned(),
        inflow: Inflow::Flex(1),
        parent: "root".to_owned(),
        data: AccountType::Leaf { balance: 0, max: -1 },
    }));
    assert!(t.leaves_within(0));
    assert!(!t.leaves_within(-1));
}

#[test]
fn negative_withdraw_credits_the_leaf() {
    // Withdrawal subtracts unconditionally; a negative amount is a
    // credit, with only the machine range as a limit.
    let mut t = Account::new_root();
    new_leaf(&mut t, "a", "root", Inflow::Flex(1), 100, 1_000);
    let r = t.apply(Action::Withdraw { account: "a".to_owned(), amount: -50, date: day() });
    assert!(r.is_ok());
    assert_eq!(balance_of(&t, "a"), 150);
}
