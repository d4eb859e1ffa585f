use p42::bank::{Bank, BankError, User};

fn balance(bank: &Bank, name: &str) -> i64 {
    bank.get_user(name).unwrap().get_balance()
}

#[test]
fn test_add_user() {
    let mut bank = Bank::new("Test Bank".to_string(), 100, 200);
    let user = User::new("Alice".to_string(), 1000, 500);
    bank.add_user(user);

    assert!(bank.contains_user("Alice"));
}

#[test]
fn test_calc_balance() {
    let mut bank = Bank::new("Test Bank".to_string(), 100, 200);
    bank.add_user(User::new("Alice".to_string(), 1000, 500));
    bank.add_user(User::new("Bob".to_string(), 1000, -300));

    let (liabilities, assets) = bank.calc_balance();
    assert_eq!(liabilities, 300);
    assert_eq!(assets, 500);
}

#[test]
fn test_transfer_funds() {
    let mut bank = Bank::new("Test Bank".to_string(), 100, 200);
    bank.add_user(User::new("Alice".to_string(), 1000, 500));
    bank.add_user(User::new("Bob".to_string(), 1000, 0));

    assert!(bank.transfer_funds("Alice", "Bob", 200).is_ok());
    assert_eq!(balance(&bank, "Alice"), 300);
    assert_eq!(balance(&bank, "Bob"), 200);

    assert!(bank.transfer_funds("Alice", "Bob", 400).is_err());
    assert_eq!(balance(&bank, "Alice"), 300);
    assert_eq!(balance(&bank, "Bob"), 200);
}

#[test]
fn test_accrue_interest() {
    let mut bank = Bank::new("Test Bank".to_string(), 100, 200);
    bank.add_user(User::new("Alice".to_string(), 1000, 500));
    bank.add_user(User::new("Bob".to_string(), 1000, -300));

    bank.accrue_interest();
    assert_eq!(balance(&bank, "Alice"), 505);
    assert_eq!(balance(&bank, "Bob"), -306);
}

#[test]
fn test_merge_bank() {
    let mut bank1 = Bank::new("Bank1".to_string(), 100, 200);
    let mut bank2 = Bank::new("Bank2".to_string(), 100, 200);

    bank1.add_user(User::new("Alice".to_string(), 1000, 500));
    bank2.add_user(User::new("Bob".to_string(), 1000, 200));
    bank2.add_user(User::new("Alice".to_string(), 1000, 300));

    assert!(bank1.merge_bank(&mut bank2).is_ok());

    assert_eq!(balance(&bank1, "Alice"), 800);
    assert_eq!(balance(&bank1, "Bob"), 200);
    assert!(bank2.is_empty());
}

#[test]
fn add_user_replaces_same_name() {
    let mut bank = Bank::new("Test Bank".to_string(), 100, 200);
    bank.add_user(User::new("Alice".to_string(), 1000, 500));
    bank.add_user(User::new("Alice".to_string(), 50, -20));
    assert_eq!(balance(&bank, "Alice"), -20);
    assert_eq!(bank.users().len(), 1);
    assert_eq!(bank.calc_balance(), (20, 0));
}

#[test]
fn calc_balance_empty_bank_and_zero_balance() {
    let mut bank = Bank::new("Empty".to_string(), 0, 0);
    assert_eq!(bank.calc_balance(), (0, 0));
    bank.add_user(User::new("Zed".to_string(), 0, 0));
    assert_eq!(bank.calc_balance(), (0, 0));
}

#[test]
fn calc_balance_sums_each_side() {
    let mut bank = Bank::new("B".to_string(), 0, 0);
    bank.add_user(User::new("A".to_string(), 0, 10));
    bank.add_user(User::new("B".to_string(), 0, -7));
    bank.add_user(User::new("C".to_string(), 0, 32));
    bank.add_user(User::new("D".to_string(), 0, -1));
    assert_eq!(bank.calc_balance(), (8, 42));
}

#[test]
fn calc_balance_extreme_balance() {
    let mut bank = Bank::new("B".to_string(), 0, 0);
    bank.add_user(User::new("Min".to_string(), 0, i64::MIN));
    assert_eq!(bank.calc_balance(), (1u64 << 63, 0));
}

#[test]
fn transfer_unknown_user() {
    let mut bank = Bank::new("B".to_string(), 0, 0);
    bank.add_user(User::new("Alice".to_string(), 0, 500));
    assert_eq!(bank.transfer_funds("Alice", "Carol", 1), Err(BankError::UserNotFound));
    assert_eq!(bank.transfer_funds("Carol", "Alice", 1), Err(BankError::UserNotFound));
    assert_eq!(balance(&bank, "Alice"), 500);
}

#[test]
fn transfer_insufficient_funds() {
    let mut bank = Bank::new("B".to_string(), 0, 0);
    bank.add_user(User::new("Alice".to_string(), 0, 100));
    bank.add_user(User::new("Bob".to_string(), 0, 0));
    assert_eq!(bank.transfer_funds("Alice", "Bob", 101), Err(BankError::InsufficientFunds));
    assert_eq!(bank.transfer_funds("Alice", "Bob", u64::MAX), Err(BankError::InsufficientFunds));
    assert_eq!(bank.transfer_funds("Alice", "Bob", 100), Ok(()));
    assert_eq!(balance(&bank, "Alice"), 0);
    assert_eq!(balance(&bank, "Bob"), 100);
}

#[test]
fn transfer_overflow_leaves_balances() {
    let mut bank = Bank::new("B".to_string(), 0, 0);
    bank.add_user(User::new("Alice".to_string(), 0, 10));
    bank.add_user(User::new("Bob".to_string(), 0, i64::MAX - 5));
    assert_eq!(bank.transfer_funds("Alice", "Bob", 6), Err(BankError::Overflow));
    assert_eq!(balance(&bank, "Alice"), 10);
    assert_eq!(balance(&bank, "Bob"), i64::MAX - 5);
    assert_eq!(bank.transfer_funds("Alice", "Bob", 5), Ok(()));
    assert_eq!(balance(&bank, "Bob"), i64::MAX);
}

#[test]
fn transfer_to_self_keeps_balance() {
    let mut bank = Bank::new("B".to_string(), 0, 0);
    bank.add_user(User::new("Alice".to_string(), 0, 40));
    assert_eq!(bank.transfer_funds("Alice", "Alice", 30), Ok(()));
    assert_eq!(balance(&bank, "Alice"), 40);
}

#[test]
fn transfer_keeps_total() {
    let mut bank = Bank::new("B".to_string(), 0, 0);
    bank.add_user(User::new("A".to_string(), 0, 70));
    bank.add_user(User::new("B".to_string(), 0, -30));
    bank.add_user(User::new("C".to_string(), 0, 5));
    assert_eq!(bank.transfer_funds("A", "B", 50), Ok(()));
    let total: i64 = bank.users().iter().map(|u| u.get_balance()).sum();
    assert_eq!(total, 45);
    assert_eq!(balance(&bank, "A"), 20);
    assert_eq!(balance(&bank, "B"), 20);
}

#[test]
fn accrue_interest_truncates() {
    let mut bank = Bank::new("B".to_string(), 150, 250);
    bank.add_user(User::new("P".to_string(), 0, 99));
    bank.add_user(User::new("N".to_string(), 0, -99));
    bank.add_user(User::new("Z".to_string(), 0, 0));
    bank.add_user(User::new("Big".to_string(), 0, 12345));
    bank.accrue_interest();
    assert_eq!(balance(&bank, "P"), 100);
    assert_eq!(balance(&bank, "N"), -101);
    assert_eq!(balance(&bank, "Z"), 0);
    assert_eq!(balance(&bank, "Big"), 12530);
}

#[test]
fn merge_overflow_changes_nothing() {
    let mut a = Bank::new("A".to_string(), 0, 0);
    let mut b = Bank::new("B".to_string(), 0, 0);
    a.add_user(User::new("X".to_string(), 0, i64::MAX));
    b.add_user(User::new("Y".to_string(), 0, 3));
    b.add_user(User::new("X".to_string(), 0, 1));
    assert_eq!(a.merge_bank(&mut b), Err(BankError::Overflow));
    assert_eq!(balance(&a, "X"), i64::MAX);
    assert!(!a.contains_user("Y"));
    assert_eq!(balance(&b, "X"), 1);
    assert_eq!(balance(&b, "Y"), 3);
}

#[test]
fn merge_into_empty_and_negative() {
    let mut a = Bank::new("A".to_string(), 0, 0);
    let mut b = Bank::new("B".to_string(), 0, 0);
    a.add_user(User::new("X".to_string(), 0, -5));
    b.add_user(User::new("X".to_string(), 0, -7));
    b.add_user(User::new("W".to_string(), 9, 4));
    assert_eq!(a.merge_bank(&mut b), Ok(()));
    assert_eq!(balance(&a, "X"), -12);
    assert_eq!(balance(&a, "W"), 4);
    assert_eq!(a.users().len(), 2);
    assert!(b.is_empty());
    assert_eq!(b.get_name(), "B");
}

#[test]
fn user_accessors() {
    let mut u = User::new("Alice".to_string(), 1000, 500);
    assert_eq!(u.get_name(), "Alice");
    u.add_balance(-600);
    assert_eq!(u.get_balance(), -100);
    let bank = Bank::new("Test".to_string(), 100, 200);
    assert_eq!(bank.get_credit_interest(), 100);
    assert_eq!(bank.get_debit_interest(), 200);
    assert!(bank.is_empty());
}
