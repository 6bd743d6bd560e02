use treasury_manager::{
    checked_sum, funding_order, holding_shares, is_valid_permission, plan_rebalance,
    stable_order, validate_permissions, AdminAuthError, AllocationType, Asset, Balance, Config,
    Contract, Holding, Movement, Status, Target, Treasury, TreasuryError, ONE_HUNDRED_PERCENT,
};

fn s(x: &str) -> String {
    x.to_string()
}

fn contract(addr: &str) -> Contract {
    Contract { address: s(addr), code_hash: s("hash") }
}

fn manager_with_alice() -> Treasury {
    let mut t = Treasury::new(Config { admin_auth: contract("admin"), treasury: s("treasury") });
    treasury_manager::try_register_asset(
        &mut t,
        true,
        Asset { contract: contract("sscrt"), name: s("Secret"), symbol: s("SSCRT"), decimals: 6 },
    )
    .unwrap();
    treasury_manager::add_holder(&mut t, true, s("alice")).unwrap();
    t
}

fn holding(amount: u128) -> Holding {
    Holding {
        balances: vec![Balance { token: s("sscrt"), amount }],
        unbondings: vec![],
        status: Status::Active,
    }
}

#[test]
fn checked_sum_adds_or_reports_overflow() {
    assert_eq!(checked_sum(&vec![1, 2, 3]), Some(6));
    assert_eq!(checked_sum(&vec![]), Some(0));
    assert_eq!(checked_sum(&vec![u128::MAX, 1]), None);
}

#[test]
fn stable_order_sorts_ascending_and_keeps_ties() {
    assert_eq!(stable_order(&vec![30, 10, 20, 10]), vec![1, 3, 2, 0]);
    assert_eq!(stable_order(&vec![]), Vec::<usize>::new());
}

#[test]
fn funding_order_puts_fixed_amounts_first() {
    let p = Target { alloc_type: AllocationType::Portion, amount: 1, tolerance: 0, balance: 0 };
    let a = Target { alloc_type: AllocationType::Amount, amount: 1, tolerance: 0, balance: 0 };
    assert_eq!(funding_order(&vec![p, a, p, a]), vec![1, 3, 0, 2]);
}

#[test]
fn plan_exhausts_sources_front_of_list_first() {
    let a = Target { alloc_type: AllocationType::Amount, amount: 100, tolerance: 0, balance: 0 };
    let targets = vec![a, a];
    let plan = plan_rebalance(&targets, &vec![0, 1], 60, 80, 200).unwrap();
    assert_eq!(plan.sends, vec![Movement { allocation: 0, amount: 60 }]);
    assert_eq!(
        plan.send_froms,
        vec![Movement { allocation: 0, amount: 40 }, Movement { allocation: 1, amount: 40 }]
    );
    assert_eq!(plan.balance_left, 0);
    assert_eq!(plan.allowance_left, 0);
}

#[test]
fn plan_gives_portions_nothing_when_fixed_targets_exceed_total() {
    let a = Target { alloc_type: AllocationType::Amount, amount: 300, tolerance: 0, balance: 300 };
    let p = Target {
        alloc_type: AllocationType::Portion,
        amount: ONE_HUNDRED_PERCENT,
        tolerance: 0,
        balance: 10,
    };
    let plan = plan_rebalance(&vec![a, p], &vec![0, 1], 0, 0, 200).unwrap();
    assert_eq!(plan.unbonds, vec![Movement { allocation: 1, amount: 10 }]);
    assert!(plan.sends.is_empty());
}

#[test]
fn plan_overflowing_threshold_is_refused() {
    let a = Target { alloc_type: AllocationType::Amount, amount: u128::MAX, tolerance: u128::MAX, balance: 0 };
    let r = plan_rebalance(&vec![a], &vec![0], 0, 0, 0);
    assert_eq!(r.err(), Some(TreasuryError::ArithmeticOverflow));
}

#[test]
fn holding_shares_scale_to_one_hundred_percent() {
    let shares = holding_shares(&vec![holding(1), holding(3)], &s("sscrt")).unwrap();
    assert_eq!(shares, vec![ONE_HUNDRED_PERCENT / 4, 3 * ONE_HUNDRED_PERCENT / 4]);
    let thirds = holding_shares(&vec![holding(1), holding(2)], &s("sscrt")).unwrap();
    assert_eq!(thirds, vec![333_333_333_333_333_333, 666_666_666_666_666_666]);
}

#[test]
fn holding_shares_overflowing_total_is_refused() {
    assert_eq!(
        holding_shares(&vec![holding(u128::MAX), holding(1)], &s("sscrt")).err(),
        Some(TreasuryError::ArithmeticOverflow)
    );
}

#[test]
fn permission_format() {
    assert!(is_valid_permission("TREASURY_MANAGER").is_ok());
    assert!(is_valid_permission("SHORT_1234").is_err());
    assert!(is_valid_permission("SHORT_12345").is_ok());
    match is_valid_permission("treasury_manager") {
        Err(AdminAuthError::InvalidPermissionFormat { permission }) => {
            assert_eq!(permission, "treasury_manager")
        }
        Ok(()) => panic!("lower case accepted"),
    }
}

#[test]
fn validate_permissions_names_first_bad_one() {
    assert!(validate_permissions(&[s("TREASURY_MANAGER"), s("SKY_DERIVATIVES")]).is_ok());
    match validate_permissions(&[s("TREASURY_MANAGER"), s("bad-one-here"), s("X")]) {
        Err(AdminAuthError::InvalidPermissionFormat { permission }) => assert_eq!(permission, "bad-one-here"),
        Ok(()) => panic!("accepted"),
    }
}

#[test]
fn query_allowance_and_reserves() {
    let t = manager_with_alice();
    assert_eq!(treasury_manager::pending_allowance(&t, &s("sscrt"), 77), Ok(77));
    assert_eq!(treasury_manager::pending_allowance(&t, &s("x"), 77), Err(TreasuryError::UnknownAsset));
    assert_eq!(treasury_manager::reserves(&t, &s("sscrt"), &s("alice"), 12), Ok(12));
    assert_eq!(treasury_manager::reserves(&t, &s("x"), &s("alice"), 12), Err(TreasuryError::UnknownAsset));
}

#[test]
fn query_claimable_is_capped_by_pending() {
    let mut t = manager_with_alice();
    treasury_manager::receive(&mut t, &s("sscrt"), &s("alice"), 100).unwrap();
    treasury_manager::unbond(&mut t, &s("alice"), false, &s("sscrt"), 60, 0, &vec![], &vec![]).unwrap();
    assert_eq!(treasury_manager::claimable(&t, &s("sscrt"), &s("alice"), 10, &vec![20]), Ok(30));
    assert_eq!(treasury_manager::claimable(&t, &s("sscrt"), &s("alice"), 100, &vec![]), Ok(60));
    assert_eq!(
        treasury_manager::claimable(&t, &s("sscrt"), &s("bob"), 1, &vec![]),
        Err(TreasuryError::UnknownHolder)
    );
    assert_eq!(
        treasury_manager::claimable(&t, &s("sscrt"), &s("alice"), u128::MAX, &vec![1]),
        Err(TreasuryError::ArithmeticOverflow)
    );
}

#[test]
fn query_unbondable_adds_liquid_and_adapters() {
    let t = manager_with_alice();
    assert_eq!(treasury_manager::unbondable(&t, &s("sscrt"), &s("alice"), 5, &vec![10, 20]), Ok(35));
    assert_eq!(
        treasury_manager::unbondable(&t, &s("x"), &s("alice"), 5, &vec![]),
        Err(TreasuryError::UnknownAsset)
    );
}

#[test]
fn query_lists_and_lookups() {
    let t = manager_with_alice();
    assert_eq!(treasury_manager::assets(&t), &vec![s("sscrt")]);
    assert_eq!(treasury_manager::holders(&t), &vec![s("treasury"), s("alice")]);
    assert!(treasury_manager::allocations(&t, &s("x")).is_empty());
    assert_eq!(treasury_manager::balance(&t, &s("sscrt"), &s("bob")), Err(TreasuryError::UnknownHolder));
    assert_eq!(treasury_manager::unbonding(&t, &s("x"), &s("alice")), Err(TreasuryError::UnknownAsset));
    assert!(treasury_manager::holding(&t, &s("bob")).is_err());
}

#[test]
fn reregistering_an_asset_clears_its_allocations() {
    let mut t = manager_with_alice();
    treasury_manager::allocate(
        &mut t,
        true,
        &s("sscrt"),
        treasury_manager::Allocation {
            nick: None,
            contract: contract("adapter"),
            alloc_type: AllocationType::Amount,
            amount: 5,
            tolerance: 0,
        },
    )
    .unwrap();
    treasury_manager::try_register_asset(
        &mut t,
        true,
        Asset { contract: contract("sscrt"), name: s("Secret"), symbol: s("SSCRT"), decimals: 6 },
    )
    .unwrap();
    assert_eq!(treasury_manager::assets(&t).len(), 1);
    assert!(treasury_manager::allocations(&t, &s("sscrt")).is_empty());
    assert_eq!(
        treasury_manager::try_register_asset(
        &mut t,
            false,
            Asset { contract: contract("b"), name: s("B"), symbol: s("B"), decimals: 6 }
        ),
        Err(TreasuryError::Unauthorized)
    );
}
