use treasury_manager::{
    Allocation, AllocationType, Asset, Config, Contract, Movement, Status, Treasury, TreasuryError,
    ONE_HUNDRED_PERCENT,
};

fn contract(addr: &str) -> Contract {
    Contract { address: addr.to_string(), code_hash: "hash".to_string() }
}

fn s(x: &str) -> String {
    x.to_string()
}

fn manager() -> Treasury {
    let mut t = Treasury::new(Config { admin_auth: contract("admin"), treasury: s("treasury") });
    treasury_manager::try_register_asset(
        &mut t,
        true,
        Asset { contract: contract("sscrt"), name: s("Secret"), symbol: s("SSCRT"), decimals: 6 },
    )
    .unwrap();
    t
}

fn allocation(addr: &str, alloc_type: AllocationType, amount: u128, tolerance: u128) -> Allocation {
    Allocation { nick: Some(s(addr)), contract: contract(addr), alloc_type, amount, tolerance }
}

fn available(t: &Treasury, holder: &str) -> u128 {
    treasury_manager::balance(t, &s("sscrt"), &s(holder)).unwrap()
}

fn pending(t: &Treasury, holder: &str) -> u128 {
    treasury_manager::unbonding(t, &s("sscrt"), &s(holder)).unwrap()
}

#[test]
fn new_manager_holds_only_the_treasury() {
    let t = Treasury::new(Config { admin_auth: contract("admin"), treasury: s("treasury") });
    assert_eq!(t.holders, vec![s("treasury")]);
    assert_eq!(t.holdings[0].status, Status::Active);
    assert!(t.asset_list.is_empty());
}

#[test]
fn fixed_allocation_is_funded_from_liquid_balance() {
    let mut t = manager();
    treasury_manager::allocate(&mut t, true, &s("sscrt"), allocation("adapter", AllocationType::Amount, 50, 0)).unwrap();
    let plan = treasury_manager::update(&mut t, &s("sscrt"), &vec![0], 200, 0).unwrap();
    assert_eq!(plan.sends, vec![Movement { allocation: 0, amount: 50 }]);
    assert!(plan.send_froms.is_empty());
    assert!(plan.unbonds.is_empty());
    assert_eq!(plan.balance_left, 150);
}

#[test]
fn unbond_beyond_available_is_refused() {
    let mut t = manager();
    treasury_manager::add_holder(&mut t, true, s("alice")).unwrap();
    treasury_manager::receive(&mut t, &s("sscrt"), &s("alice"), 80).unwrap();
    let r = treasury_manager::unbond(&mut t, &s("alice"), false, &s("sscrt"), 100, 80, &vec![], &vec![]);
    assert_eq!(r.err(), Some(TreasuryError::InsufficientBalance));
    assert_eq!(available(&t, "alice"), 80);
    assert_eq!(pending(&t, "alice"), 0);
}

#[test]
fn unbond_settles_at_once_from_free_liquidity() {
    let mut t = manager();
    treasury_manager::add_holder(&mut t, true, s("alice")).unwrap();
    treasury_manager::receive(&mut t, &s("sscrt"), &s("alice"), 50).unwrap();
    let o = treasury_manager::unbond(&mut t, &s("alice"), false, &s("sscrt"), 30, 50, &vec![], &vec![]).unwrap();
    assert_eq!(o.settled, 30);
    assert!(o.unbonds.is_empty());
    assert_eq!(o.remaining, 0);
    assert_eq!(pending(&t, "alice"), 0);
    assert_eq!(available(&t, "alice"), 20);
}

#[test]
fn unbond_leaves_liquidity_reserved_for_others() {
    let mut t = manager();
    treasury_manager::add_holder(&mut t, true, s("alice")).unwrap();
    treasury_manager::add_holder(&mut t, true, s("bob")).unwrap();
    treasury_manager::receive(&mut t, &s("sscrt"), &s("alice"), 100).unwrap();
    treasury_manager::receive(&mut t, &s("sscrt"), &s("bob"), 100).unwrap();
    // Alice's request finds no liquidity and stays pending.
    let a = treasury_manager::unbond(&mut t, &s("alice"), false, &s("sscrt"), 100, 0, &vec![], &vec![]).unwrap();
    assert_eq!(a.settled, 0);
    assert_eq!(pending(&t, "alice"), 100);
    // Bob's request meets 100 of liquidity, all of it reserved for Alice.
    let b = treasury_manager::unbond(&mut t, &s("bob"), false, &s("sscrt"), 100, 100, &vec![], &vec![]).unwrap();
    assert_eq!(b.settled, 0);
    assert_eq!(pending(&t, "bob"), 100);
    assert_eq!(b.remaining, 100);
}

#[test]
fn unbond_drains_smallest_allocations_first() {
    let mut t = manager();
    treasury_manager::add_holder(&mut t, true, s("alice")).unwrap();
    treasury_manager::allocate(&mut t, true, &s("sscrt"), allocation("big", AllocationType::Amount, 500, 0)).unwrap();
    treasury_manager::allocate(&mut t, true, &s("sscrt"), allocation("small", AllocationType::Amount, 100, 0)).unwrap();
    treasury_manager::receive(&mut t, &s("sscrt"), &s("alice"), 1000).unwrap();
    let o = treasury_manager::unbond(&mut t, &s("alice"), false, &s("sscrt"), 300, 50, &vec![500, 100], &vec![500, 100]).unwrap();
    assert_eq!(o.settled, 50);
    assert_eq!(
        o.unbonds,
        vec![Movement { allocation: 1, amount: 100 }, Movement { allocation: 0, amount: 150 }]
    );
    assert_eq!(o.remaining, 0);
    assert_eq!(pending(&t, "alice"), 250);
    assert_eq!(available(&t, "alice"), 700);
}

#[test]
fn unbond_by_closed_holder_is_refused() {
    let mut t = manager();
    treasury_manager::add_holder(&mut t, true, s("alice")).unwrap();
    treasury_manager::receive(&mut t, &s("sscrt"), &s("alice"), 10).unwrap();
    treasury_manager::remove_holder(&mut t, true, &s("alice")).unwrap();
    let r = treasury_manager::unbond(&mut t, &s("alice"), false, &s("sscrt"), 5, 10, &vec![], &vec![]);
    assert_eq!(r.err(), Some(TreasuryError::InactiveHolding));
}

#[test]
fn unbond_by_stranger_is_unauthorized() {
    let mut t = manager();
    let r = treasury_manager::unbond(&mut t, &s("mallory"), false, &s("sscrt"), 5, 10, &vec![], &vec![]);
    assert_eq!(r.err(), Some(TreasuryError::Unauthorized));
}

#[test]
fn admin_unbonds_for_the_treasury() {
    let mut t = manager();
    treasury_manager::receive(&mut t, &s("sscrt"), &s("someone"), 40).unwrap();
    assert_eq!(available(&t, "treasury"), 40);
    let o = treasury_manager::unbond(&mut t, &s("admin-user"), true, &s("sscrt"), 40, 100, &vec![], &vec![]).unwrap();
    assert_eq!(o.settled, 40);
    assert_eq!(available(&t, "treasury"), 0);
}

#[test]
fn claim_pulls_from_allocations_when_liquidity_is_short() {
    let mut t = manager();
    treasury_manager::add_holder(&mut t, true, s("alice")).unwrap();
    treasury_manager::allocate(&mut t, true, &s("sscrt"), allocation("a", AllocationType::Amount, 10, 0)).unwrap();
    treasury_manager::allocate(&mut t, true, &s("sscrt"), allocation("b", AllocationType::Amount, 10, 0)).unwrap();
    treasury_manager::receive(&mut t, &s("sscrt"), &s("alice"), 100).unwrap();
    treasury_manager::unbond(&mut t, &s("alice"), false, &s("sscrt"), 100, 0, &vec![0, 0], &vec![0, 0]).unwrap();
    assert_eq!(pending(&t, "alice"), 100);
    let c = treasury_manager::claim(&mut t, &s("alice"), false, &s("sscrt"), 30, &vec![0, 50]).unwrap();
    assert_eq!(c.claims, vec![1]);
    assert_eq!(c.claimed, 50);
    assert_eq!(c.settled, 80);
    assert_eq!(pending(&t, "alice"), 20);
}

#[test]
fn claim_without_pending_is_refused() {
    let mut t = manager();
    treasury_manager::add_holder(&mut t, true, s("alice")).unwrap();
    let r = treasury_manager::claim(&mut t, &s("alice"), false, &s("sscrt"), 30, &vec![]);
    assert_eq!(r.err(), Some(TreasuryError::NoUnbondingForAsset));
}

#[test]
fn claim_of_unknown_asset_is_refused() {
    let mut t = manager();
    let r = treasury_manager::claim(&mut t, &s("treasury"), false, &s("other"), 30, &vec![]);
    assert_eq!(r.err(), Some(TreasuryError::UnknownAsset));
}

#[test]
fn deposits_go_to_holder_or_treasury() {
    let mut t = manager();
    treasury_manager::add_holder(&mut t, true, s("alice")).unwrap();
    treasury_manager::receive(&mut t, &s("sscrt"), &s("alice"), 7).unwrap();
    treasury_manager::receive(&mut t, &s("sscrt"), &s("alice"), 3).unwrap();
    treasury_manager::receive(&mut t, &s("sscrt"), &s("stranger"), 5).unwrap();
    assert_eq!(available(&t, "alice"), 10);
    assert_eq!(available(&t, "treasury"), 5);
}

#[test]
fn deposit_from_allocation_is_credited_to_nobody() {
    let mut t = manager();
    treasury_manager::allocate(&mut t, true, &s("sscrt"), allocation("adapter", AllocationType::Amount, 50, 0)).unwrap();
    treasury_manager::receive(&mut t, &s("sscrt"), &s("adapter"), 25).unwrap();
    assert_eq!(available(&t, "treasury"), 0);
}

#[test]
fn deposit_of_unknown_asset_or_to_closed_holding_is_refused() {
    let mut t = manager();
    assert_eq!(treasury_manager::receive(&mut t, &s("other"), &s("alice"), 1), Err(TreasuryError::UnknownAsset));
    treasury_manager::add_holder(&mut t, true, s("alice")).unwrap();
    treasury_manager::remove_holder(&mut t, true, &s("alice")).unwrap();
    assert_eq!(treasury_manager::receive(&mut t, &s("sscrt"), &s("alice"), 1), Err(TreasuryError::InactiveHolding));
}

#[test]
fn deposit_overflow_is_refused() {
    let mut t = manager();
    treasury_manager::receive(&mut t, &s("sscrt"), &s("x"), u128::MAX).unwrap();
    assert_eq!(treasury_manager::receive(&mut t, &s("sscrt"), &s("x"), 1), Err(TreasuryError::ArithmeticOverflow));
}

#[test]
fn allocation_cap_rejects_above_and_accepts_exactly_one_hundred_percent() {
    let mut t = manager();
    treasury_manager::allocate(&mut t, true, &s("sscrt"), allocation("a", AllocationType::Portion, ONE_HUNDRED_PERCENT / 2, 0))
        .unwrap();
    let over = allocation("b", AllocationType::Portion, ONE_HUNDRED_PERCENT / 2 + 1, 0);
    assert_eq!(treasury_manager::allocate(&mut t, true, &s("sscrt"), over), Err(TreasuryError::AllocationCapExceeded));
    assert_eq!(t.allocations[0].len(), 1);
    let exact = allocation("b", AllocationType::Portion, ONE_HUNDRED_PERCENT / 2, 0);
    assert_eq!(treasury_manager::allocate(&mut t, true, &s("sscrt"), exact), Ok(()));
    assert_eq!(t.allocations[0].len(), 2);
}

#[test]
fn allocation_replaces_same_contract_and_moves_last() {
    let mut t = manager();
    treasury_manager::allocate(&mut t, true, &s("sscrt"), allocation("a", AllocationType::Portion, ONE_HUNDRED_PERCENT, 0)).unwrap();
    treasury_manager::allocate(&mut t, true, &s("sscrt"), allocation("b", AllocationType::Amount, 10, 0)).unwrap();
    treasury_manager::allocate(&mut t, true, &s("sscrt"), allocation("a", AllocationType::Portion, ONE_HUNDRED_PERCENT, 5)).unwrap();
    let list = treasury_manager::allocations(&t, &s("sscrt"));
    assert_eq!(list.len(), 2);
    assert_eq!(list[0].contract.address, "b");
    assert_eq!(list[1].contract.address, "a");
    assert_eq!(list[1].tolerance, 5);
}

#[test]
fn admin_commands_need_authorization() {
    let mut t = manager();
    assert_eq!(treasury_manager::add_holder(&mut t, false, s("alice")), Err(TreasuryError::Unauthorized));
    assert_eq!(treasury_manager::remove_holder(&mut t, false, &s("treasury")), Err(TreasuryError::Unauthorized));
    assert_eq!(
        treasury_manager::allocate(&mut t, false, &s("sscrt"), allocation("a", AllocationType::Amount, 1, 0)),
        Err(TreasuryError::Unauthorized)
    );
    assert_eq!(
        treasury_manager::try_update_config(&mut t, false, Config { admin_auth: contract("x"), treasury: s("treasury") }),
        Err(TreasuryError::Unauthorized)
    );
}

#[test]
fn holder_lifecycle() {
    let mut t = manager();
    treasury_manager::add_holder(&mut t, true, s("alice")).unwrap();
    assert_eq!(treasury_manager::add_holder(&mut t, true, s("alice")), Err(TreasuryError::HolderAlreadyExists));
    assert_eq!(treasury_manager::remove_holder(&mut t, true, &s("bob")), Err(TreasuryError::UnknownHolder));
    treasury_manager::remove_holder(&mut t, true, &s("alice")).unwrap();
    let h = treasury_manager::holding(&t, &s("alice")).unwrap();
    assert_eq!(h.status, Status::Closed);
}

#[test]
fn config_update_needs_a_known_treasury() {
    let mut t = manager();
    let bad = Config { admin_auth: contract("admin"), treasury: s("nobody") };
    assert_eq!(treasury_manager::try_update_config(&mut t, true, bad), Err(TreasuryError::UnknownHolder));
    treasury_manager::add_holder(&mut t, true, s("vault")).unwrap();
    let good = Config { admin_auth: contract("admin2"), treasury: s("vault") };
    assert_eq!(treasury_manager::try_update_config(&mut t, true, good), Ok(()));
    assert_eq!(treasury_manager::config(&t).treasury, "vault");
}

#[test]
fn portion_shares_split_what_is_left_after_fixed_targets() {
    let mut t = manager();
    treasury_manager::allocate(&mut t, true, &s("sscrt"), allocation("p", AllocationType::Portion, ONE_HUNDRED_PERCENT / 2, 0))
        .unwrap();
    treasury_manager::allocate(&mut t, true, &s("sscrt"), allocation("f", AllocationType::Amount, 100, 0)).unwrap();
    treasury_manager::receive(&mut t, &s("sscrt"), &s("depositor"), 1000).unwrap();
    let plan = treasury_manager::update(&mut t, &s("sscrt"), &vec![0, 0], 1000, 0).unwrap();
    // Fixed first: 100; the share gets half of the remaining 900.
    assert_eq!(plan.order, vec![1, 0]);
    assert_eq!(
        plan.sends,
        vec![Movement { allocation: 1, amount: 100 }, Movement { allocation: 0, amount: 450 }]
    );
    assert_eq!(plan.balance_left, 450);
}

#[test]
fn funding_draws_on_allowance_after_liquid_balance() {
    let mut t = manager();
    treasury_manager::allocate(&mut t, true, &s("sscrt"), allocation("f", AllocationType::Amount, 100, 0)).unwrap();
    let plan = treasury_manager::update(&mut t, &s("sscrt"), &vec![0], 30, 200).unwrap();
    assert_eq!(plan.sends, vec![Movement { allocation: 0, amount: 30 }]);
    assert_eq!(plan.send_froms, vec![Movement { allocation: 0, amount: 70 }]);
    assert_eq!(plan.allowance_left, 130);
    // The treasury holder is credited so that holders' balances match the
    // value held, 30 of liquid balance.
    assert_eq!(available(&t, "treasury"), 30);
}

#[test]
fn tolerance_skips_small_gaps_and_surplus_is_pulled_back() {
    let mut t = manager();
    // 10% tolerance on a target of 100: a gap of 10 is tolerated.
    treasury_manager::allocate(&mut t, true, &s("sscrt"), allocation("f", AllocationType::Amount, 100, ONE_HUNDRED_PERCENT / 10))
        .unwrap();
    treasury_manager::allocate(&mut t, true, &s("sscrt"), allocation("g", AllocationType::Amount, 100, 0)).unwrap();
    let plan = treasury_manager::update(&mut t, &s("sscrt"), &vec![90, 130], 50, 0).unwrap();
    assert!(plan.sends.is_empty());
    assert_eq!(plan.unbonds, vec![Movement { allocation: 1, amount: 30 }]);
}

#[test]
fn second_rebalance_after_movements_land_moves_nothing() {
    let mut t = manager();
    treasury_manager::allocate(&mut t, true, &s("sscrt"), allocation("f", AllocationType::Amount, 100, 0)).unwrap();
    treasury_manager::allocate(&mut t, true, &s("sscrt"), allocation("p", AllocationType::Portion, ONE_HUNDRED_PERCENT / 4, 0))
        .unwrap();
    let first = treasury_manager::update(&mut t, &s("sscrt"), &vec![0, 500], 400, 0).unwrap();
    // total 900: fixed 100, share 25% of 800 = 200; 300 pulled back.
    assert_eq!(first.sends, vec![Movement { allocation: 0, amount: 100 }]);
    assert_eq!(first.unbonds, vec![Movement { allocation: 1, amount: 300 }]);
    // Once landed: allocations hold 100 and 200, liquid 300 + 300 returned.
    let second = treasury_manager::update(&mut t, &s("sscrt"), &vec![100, 200], 600, 0).unwrap();
    assert!(second.sends.is_empty());
    assert!(second.send_froms.is_empty());
    assert!(second.unbonds.is_empty());
}

#[test]
fn rebalance_books_losses_to_the_treasury() {
    let mut t = manager();
    treasury_manager::add_holder(&mut t, true, s("alice")).unwrap();
    treasury_manager::receive(&mut t, &s("sscrt"), &s("alice"), 100).unwrap();
    treasury_manager::receive(&mut t, &s("sscrt"), &s("stranger"), 50).unwrap();
    // Only 120 is held for 150 of deposits: the treasury absorbs the loss.
    treasury_manager::update(&mut t, &s("sscrt"), &vec![], 120, 0).unwrap();
    assert_eq!(available(&t, "treasury"), 20);
    assert_eq!(available(&t, "alice"), 100);
}

#[test]
fn rebalance_loss_beyond_treasury_is_refused() {
    let mut t = manager();
    treasury_manager::add_holder(&mut t, true, s("alice")).unwrap();
    treasury_manager::receive(&mut t, &s("sscrt"), &s("alice"), 100).unwrap();
    let r = treasury_manager::update(&mut t, &s("sscrt"), &vec![], 50, 0);
    assert_eq!(r.err(), Some(TreasuryError::ArithmeticUnderflow));
    assert_eq!(available(&t, "alice"), 100);
}

#[test]
fn rebalance_of_unknown_asset_is_refused() {
    let mut t = manager();
    assert_eq!(treasury_manager::update(&mut t, &s("other"), &vec![], 0, 0).err(), Some(TreasuryError::UnknownAsset));
}

#[test]
fn rebalance_with_overflowing_reports_is_refused() {
    let mut t = manager();
    treasury_manager::allocate(&mut t, true, &s("sscrt"), allocation("f", AllocationType::Amount, 1, 0)).unwrap();
    let r = treasury_manager::update(&mut t, &s("sscrt"), &vec![u128::MAX], 1, 0);
    assert_eq!(r.err(), Some(TreasuryError::ArithmeticOverflow));
}

fn holders_total(t: &Treasury) -> u128 {
    let mut sum = 0;
    for h in treasury_manager::holders(t) {
        sum += available(t, h) + pending(t, h);
    }
    sum
}

#[test]
fn holder_totals_follow_the_funds() {
    let mut t = manager();
    treasury_manager::add_holder(&mut t, true, s("alice")).unwrap();
    treasury_manager::receive(&mut t, &s("sscrt"), &s("alice"), 100).unwrap();
    treasury_manager::receive(&mut t, &s("sscrt"), &s("stranger"), 50).unwrap();
    let mut liquid: u128 = 150;
    assert_eq!(holders_total(&t), liquid);
    let o = treasury_manager::unbond(&mut t, &s("alice"), false, &s("sscrt"), 40, liquid, &vec![], &vec![])
        .unwrap();
    liquid -= o.settled;
    assert_eq!(holders_total(&t), liquid);
    // Yield of 5 shows up in the liquid balance; rebalancing books it to the
    // treasury holder.
    liquid += 5;
    treasury_manager::update(&mut t, &s("sscrt"), &vec![], liquid, 0).unwrap();
    assert_eq!(holders_total(&t), liquid);
    assert_eq!(available(&t, "treasury"), 55);
    assert_eq!(available(&t, "alice"), 60);
}

#[test]
fn second_rebalance_is_quiet_when_first_spent_everything_exactly() {
    let mut t = manager();
    treasury_manager::allocate(&mut t, true, &s("sscrt"), allocation("f", AllocationType::Amount, 100, 0))
        .unwrap();
    let first = treasury_manager::update(&mut t, &s("sscrt"), &vec![0], 100, 0).unwrap();
    assert_eq!(first.sends, vec![Movement { allocation: 0, amount: 100 }]);
    assert_eq!(first.balance_left, 0);
    assert_eq!(first.allowance_left, 0);
    let second = treasury_manager::update(&mut t, &s("sscrt"), &vec![100], 0, 0).unwrap();
    assert!(second.sends.is_empty() && second.send_froms.is_empty() && second.unbonds.is_empty());
}

#[test]
fn registering_a_new_asset_appends_it_with_no_allocations() {
    let mut t = manager();
    let r = treasury_manager::try_register_asset(
        &mut t,
        true,
        Asset { contract: contract("shd"), name: s("Shade"), symbol: s("SHD"), decimals: 8 },
    );
    assert_eq!(r, Ok(()));
    assert_eq!(treasury_manager::assets(&t), &vec![s("sscrt"), s("shd")]);
    assert!(treasury_manager::allocations(&t, &s("shd")).is_empty());
}
