use ledger_engine::account::{Account, Effect};
use ledger_engine::decimal::Decimal;
use ledger_engine::transaction::{
    ClientId, Transaction, TransactionState, TransactionType, TxId,
};

fn outside(d: &Decimal) -> rust_decimal::Decimal {
    rust_decimal::Decimal::from_i128_with_scale(d.mantissa(), d.scale())
}

fn parts(d: &Decimal) -> (i128, u32) {
    (d.mantissa(), d.scale())
}

fn big(m: i128, s: u32) -> Decimal {
    Decimal::try_from_i128_with_scale(m, s).unwrap()
}

const MAX: i128 = 79228162514264337593543950335;

#[test]
fn sum_has_the_larger_scale() {
    let r = Decimal::new(15, 1).checked_add(Decimal::new(225, 2)).unwrap();
    assert_eq!(parts(&r), (375, 2));
    let r = Decimal::new(225, 2).checked_add(Decimal::new(15, 1)).unwrap();
    assert_eq!(parts(&r), (375, 2));
    let r = Decimal::new(1, 0).checked_add(Decimal::new(3, 0)).unwrap();
    assert_eq!(parts(&r), (4, 0));
    let r = Decimal::new(-10111, 4).checked_add(Decimal::new(10111, 4)).unwrap();
    assert_eq!(parts(&r), (0, 4));
}

#[test]
fn difference_has_the_larger_scale() {
    let r = Decimal::new(15111, 4).checked_sub(Decimal::new(10111, 4)).unwrap();
    assert_eq!(parts(&r), (5000, 4));
    let r = Decimal::new(5, 0).checked_sub(Decimal::new(10, 0)).unwrap();
    assert_eq!(parts(&r), (-5, 0));
    let r = Decimal::new(1, 0).checked_sub(Decimal::new(25, 2)).unwrap();
    assert_eq!(parts(&r), (75, 2));
    let r = Decimal::new(-1, 3).checked_sub(Decimal::new(-1, 3)).unwrap();
    assert_eq!(parts(&r), (0, 3));
}

#[test]
fn zero_operand_gives_the_other_operand() {
    let r = Decimal::new(0, 0).checked_add(Decimal::new(100, 2)).unwrap();
    assert_eq!(parts(&r), (100, 2));
    let r = Decimal::new(100, 2).checked_add(Decimal::new(0, 4)).unwrap();
    assert_eq!(parts(&r), (100, 2));
    let r = Decimal::new(0, 3).checked_add(Decimal::new(0, 1)).unwrap();
    assert_eq!(parts(&r), (0, 1));
    let r = Decimal::new(100, 2).checked_sub(Decimal::new(0, 4)).unwrap();
    assert_eq!(parts(&r), (100, 2));
    let r = Decimal::new(0, 4).checked_sub(Decimal::new(100, 2)).unwrap();
    assert_eq!(parts(&r), (-100, 2));
    let r = Decimal::new(0, 4).checked_sub(Decimal::new(0, 2)).unwrap();
    assert_eq!(parts(&r), (0, 2));
    // A zero operand never overflows, whatever the scales.
    let r = big(MAX, 0).checked_add(Decimal::new(0, 28)).unwrap();
    assert_eq!(parts(&r), (MAX, 0));
    let r = Decimal::new(0, 28).checked_sub(big(MAX, 0)).unwrap();
    assert_eq!(parts(&r), (-MAX, 0));
}

#[test]
fn sums_at_the_edge_of_the_range() {
    assert_eq!(big(MAX, 0).checked_add(Decimal::new(1, 0)), None);
    assert_eq!(big(-MAX, 0).checked_sub(Decimal::new(1, 0)), None);
    assert_eq!(big(MAX, 0).checked_add(Decimal::new(1, 1)), None);
    assert_eq!(big(MAX, 0).checked_sub(Decimal::new(1, 28)), None);
    assert!(!big(MAX, 0).can_add(Decimal::new(1, 0)));
    assert!(!big(MAX, 0).can_sub(Decimal::new(-1, 0)));

    let r = big(MAX - 1, 0).checked_add(Decimal::new(1, 0)).unwrap();
    assert_eq!(parts(&r), (MAX, 0));
    let r = big(MAX, 0).checked_sub(big(MAX, 0)).unwrap();
    assert_eq!(parts(&r), (0, 0));
    let r = big(MAX, 0).checked_add(big(-MAX, 0)).unwrap();
    assert_eq!(parts(&r), (0, 0));
    let r = big(-MAX, 5).checked_sub(big(-MAX, 5)).unwrap();
    assert_eq!(parts(&r), (0, 5));
    let r = big(MAX, 28).checked_sub(big(1, 28)).unwrap();
    assert_eq!(parts(&r), (MAX - 1, 28));
    // 7.9228162514264337593543950335 + 7 fits at scale 28 only just not.
    assert_eq!(big(MAX, 28).checked_add(Decimal::new(7, 0)), None);
    // 1 at scale 28 needs 10^28 as mantissa, which fits.
    let r = big(1, 28).checked_add(Decimal::new(1, 0)).unwrap();
    assert_eq!(parts(&r), (10000000000000000000000000001, 28));
    let r = big(1, 28).checked_sub(Decimal::new(7, 0)).unwrap();
    assert_eq!(parts(&r), (-69999999999999999999999999999, 28));
    assert_eq!(big(1, 28).checked_add(Decimal::new(8, 0)), None);
}

#[test]
fn arithmetic_agrees_with_rust_decimal() {
    let values = [
        Decimal::new(0, 0),
        Decimal::new(0, 4),
        Decimal::new(1, 0),
        Decimal::new(-1, 0),
        Decimal::new(10, 1),
        Decimal::new(12345, 4),
        Decimal::new(-12345, 4),
        Decimal::new(5, 1),
        Decimal::new(i64::MAX, 0),
        Decimal::new(i64::MIN + 1, 3),
        Decimal::new(4294967295, 0),
        Decimal::new(4294967296, 9),
        Decimal::new(-4294967295, 2),
        Decimal::new(999999999, 9),
        Decimal::new(1, 28),
        Decimal::new(-1, 20),
        big(MAX, 0),
        big(-MAX, 0),
        big(MAX, 4),
        big(MAX, 28),
        big(MAX / 10, 0),
        big(MAX / 10 + 1, 1),
        big(-(MAX / 10000), 24),
        big(18446744073709551616, 0),
        big(18446744073709551615, 10),
        big(-18446744073709551617, 19),
        big(340282366920938463463, 12),
        big(10000000000000000000000000, 0),
        Decimal::new(10000, 4),
        Decimal::new(50, 1),
        Decimal::new(-50, 1),
        Decimal::new(5000000000, 9),
        big(MAX - 5, 0),
        big(MAX / 10 * 10, 3),
        big(-(MAX / 100 * 100), 7),
        big(70000000000000000000000000000, 28),
        big(30000000000000000000000000000, 20),
        big(9228162514264337593543950330, 1),
        big(-9228162514264337593543950300, 2),
    ];
    let mut fitting = 0;
    let mut shortened = 0;
    for a in values.iter() {
        for b in values.iter() {
            let x = outside(a);
            let y = outside(b);
            if let Some(r) = a.checked_add(*b) {
                let z = x.checked_add(y).unwrap();
                assert_eq!(parts(&r), (z.mantissa(), z.scale()), "{} + {}", x, y);
                assert!(a.can_add(*b));
                fitting += 1;
                if a.mantissa() != 0 && b.mantissa() != 0 && r.scale() < a.scale().max(b.scale()) {
                    shortened += 1;
                }
            } else {
                assert!(!a.can_add(*b));
            }
            if let Some(r) = a.checked_sub(*b) {
                let z = x.checked_sub(y).unwrap();
                assert_eq!(parts(&r), (z.mantissa(), z.scale()), "{} - {}", x, y);
                assert!(a.can_sub(*b));
                fitting += 1;
                if a.mantissa() != 0 && b.mantissa() != 0 && r.scale() < a.scale().max(b.scale()) {
                    shortened += 1;
                }
            } else {
                assert!(!a.can_sub(*b));
            }
            assert_eq!(a.lt(*b), x < y);
            assert_eq!(a.ge(*b), x >= y);
            assert_eq!(a.gt(*b), x > y);
            assert_eq!(*a == *b, x == y);
        }
    }
    assert!(fitting > 400);
    assert!(shortened > 20);
}

/// The exact sum of `x / 10^sx` and `y / 10^sy`, by the definition: dropped
/// to fewer digits only while the mantissa does not fit, and only by zeros.
fn exact_sum(x: i128, sx: u32, y: i128, sy: u32) -> Option<(i128, u32)> {
    if x == 0 {
        return Some((y, sy));
    }
    if y == 0 {
        return Some((x, sx));
    }
    let mut scale = sx.max(sy);
    let wide = |m: i128, by: u32| m.checked_mul(10i128.pow(by)).unwrap();
    let mut t = wide(x, scale - sx).checked_add(wide(y, scale - sy)).unwrap();
    while t.abs() > MAX {
        if scale == 0 || t % 10 != 0 {
            return None;
        }
        t /= 10;
        scale -= 1;
    }
    Some((t, scale))
}

#[test]
fn sums_follow_the_definition() {
    // Mantissas and scales small enough for the aligned sum to fit 128 bits.
    let mantissas: [i128; 13] = [
        1,
        -1,
        7,
        10,
        -50,
        12345,
        1000000,
        -999999999,
        4000000000,
        7922816251,
        7922816252,
        -7922816251,
        10000000000,
    ];
    let fractions: [i128; 10] = [
        1,
        -5,
        10,
        100000,
        4264337593543950335,
        4264337593543950336,
        -4264337593543950335,
        4264337593543950330,
        6000000000000000000000000000,
        -5735662406456049665,
    ];
    let mut some = 0;
    let mut none = 0;
    for m in mantissas.iter() {
        for sm in [0u32, 1, 2] {
            for f in fractions.iter() {
                for sf in [19u32, 24, 27, 28] {
                    let a = big(*m, sm);
                    let b = big(*f, sf);
                    let want = exact_sum(*m, sm, *f, sf);
                    assert_eq!(a.checked_add(b).map(|r| parts(&r)), want, "{:?} + {:?}", a, b);
                    assert_eq!(b.checked_add(a).map(|r| parts(&r)), want, "{:?} + {:?}", b, a);
                    let want = exact_sum(*m, sm, -*f, sf);
                    assert_eq!(a.checked_sub(b).map(|r| parts(&r)), want, "{:?} - {:?}", a, b);
                    let want = exact_sum(*f, sf, -*m, sm);
                    assert_eq!(b.checked_sub(a).map(|r| parts(&r)), want, "{:?} - {:?}", b, a);
                    match exact_sum(*m, sm, *f, sf) {
                        Some((t, k)) => {
                            let z = outside(&a).checked_add(outside(&b)).unwrap();
                            assert_eq!((z.mantissa(), z.scale()), (t, k));
                            some += 1;
                        }
                        None => none += 1,
                    }
                }
            }
        }
    }
    assert!(some > 100);
    assert!(none > 100);
}

#[test]
fn exact_results_at_a_smaller_scale_are_given() {
    // 10^25 + 1.0000 needs 30 digits at scale 4 and is exact at scale 3.
    let r = big(10000000000000000000000000, 0).checked_add(Decimal::new(10000, 4)).unwrap();
    assert_eq!(parts(&r), (10000000000000000000000001000, 3));
    assert_eq!(outside(&r).to_string(), "10000000000000000000000001.000");

    // (2^96 - 1) - 5.0 is exact at scale 0.
    let r = big(MAX, 0).checked_sub(Decimal::new(50, 1)).unwrap();
    assert_eq!(parts(&r), (MAX - 5, 0));
    let r = big(-MAX, 0).checked_add(Decimal::new(50, 1)).unwrap();
    assert_eq!(parts(&r), (-(MAX - 5), 0));

    // Two operands of one scale whose sum only just leaves 96 bits.
    let r = big(MAX - 5, 2).checked_add(big(10, 2)).unwrap();
    assert_eq!(parts(&r), ((MAX + 5) / 10, 1));
    assert_eq!(big(MAX - 5, 2).checked_add(big(14, 2)), None);
    assert_eq!(big(MAX - 5, 0).checked_add(big(10, 0)), None);

    // Several digits are dropped where several zeros allow it.
    let r = big(70000000000000000000000000000, 28).checked_add(Decimal::new(3, 0)).unwrap();
    assert_eq!(parts(&r), (10000000000000000000000000000, 27));
    let r = big(MAX / 1000 * 1000, 3).checked_add(big(MAX / 1000 * 1000, 3)).unwrap();
    assert_eq!(parts(&r), (MAX / 1000 * 200, 2));

    // No digit more than needed is dropped.
    let r = big(79000000000000000000000000000, 5).checked_add(big(1000000000000000000000000000, 5)).unwrap();
    assert_eq!(parts(&r), (8000000000000000000000000000, 4));
}

#[test]
fn sums_that_fit_are_exact() {
    // mantissa * 10^(28 - scale) of the result is the sum of the operands'.
    let pairs = [
        (Decimal::new(15, 1), Decimal::new(-225, 2)),
        (Decimal::new(123456789, 7), Decimal::new(987654321, 3)),
        (big(MAX / 100, 2), Decimal::new(-1, 0)),
        (Decimal::new(0, 2), Decimal::new(-5, 3)),
    ];
    for (a, b) in pairs.iter() {
        let units = |d: &Decimal| d.mantissa() * 10i128.pow(8 - d.scale().min(8));
        let s = a.checked_add(*b).unwrap();
        assert_eq!(units(&s), units(a) + units(b));
        let d = a.checked_sub(*b).unwrap();
        assert_eq!(units(&d), units(a) - units(b));
    }
}

#[test]
fn comparison_is_numerical() {
    assert!(Decimal::new(10, 1) == Decimal::new(1, 0));
    assert!(Decimal::new(1000, 3) == Decimal::new(1, 0));
    assert!(Decimal::new(0, 5) == Decimal::new(0, 0));
    assert!(Decimal::new(11, 1) != Decimal::new(1, 0));
    assert!(Decimal::new(1, 0).lt(Decimal::new(11, 1)));
    assert!(!Decimal::new(11, 1).lt(Decimal::new(1, 0)));
    assert!(!Decimal::new(10, 1).lt(Decimal::new(1, 0)));
    assert!(Decimal::new(10, 1).ge(Decimal::new(1, 0)));
    assert!(Decimal::new(-1, 4).lt(Decimal::new(0, 0)));
    assert!(Decimal::new(1, 4).gt(Decimal::new(0, 0)));
    assert!(!Decimal::new(0, 4).gt(Decimal::new(0, 0)));
    assert!(big(MAX, 28).lt(Decimal::new(8, 0)));
    assert!(big(MAX, 0).gt(big(MAX, 1)));
    assert!(big(-MAX, 0).lt(big(-MAX, 1)));
}

#[test]
fn constructors_and_readers() {
    let d = Decimal::new(-12345, 3);
    assert_eq!(d.mantissa(), -12345);
    assert_eq!(d.scale(), 3);
    assert!(d.is_sign_negative());
    assert!(!Decimal::new(0, 2).is_sign_negative());
    assert_eq!(parts(&Decimal::zero()), (0, 0));
    assert!(Decimal::try_from_i128_with_scale(MAX, 28).is_some());
    assert!(Decimal::try_from_i128_with_scale(-MAX, 0).is_some());
    assert!(Decimal::try_from_i128_with_scale(MAX + 1, 0).is_none());
    assert!(Decimal::try_from_i128_with_scale(-MAX - 1, 0).is_none());
    assert!(Decimal::try_from_i128_with_scale(1, 29).is_none());
    assert_eq!(outside(&Decimal::new(123456, 4)).to_string(), "12.3456");
}

fn deposit_of(num: i64, scale: u32, state: TransactionState) -> Transaction {
    Transaction {
        _type: TransactionType::Deposit,
        client: ClientId(1),
        tx: TxId(1),
        amount: Some(Decimal::new(num, scale)),
        state,
    }
}

fn reference(kind: TransactionType) -> Transaction {
    Transaction { _type: kind, client: ClientId(1), tx: TxId(1), amount: None, state: TransactionState::Open }
}

fn account_of(available: Decimal, held: Decimal, total: Decimal, locked: bool) -> Account {
    Account { client: ClientId(1), available, held, total, locked }
}

#[test]
fn fresh_account_is_zero_and_unlocked() {
    let a = Account::new(ClientId(9));
    assert_eq!(a.client, ClientId(9));
    assert_eq!(parts(&a.available), (0, 0));
    assert_eq!(parts(&a.held), (0, 0));
    assert_eq!(parts(&a.total), (0, 0));
    assert!(!a.locked);
    assert_eq!(Account::default(), Account::new(ClientId(0)));
    assert_eq!(TransactionState::default(), TransactionState::Open);
}

#[test]
fn classification_of_kinds() {
    let kinds = [
        (TransactionType::Deposit, true, true),
        (TransactionType::Withdrawal, true, false),
        (TransactionType::Dispute, false, false),
        (TransactionType::Resolve, false, false),
        (TransactionType::Chargeback, false, false),
    ];
    for (kind, unique, history) in kinds.iter() {
        let t = reference(*kind);
        assert_eq!(t.requires_unique_tx(), *unique);
        assert_eq!(t.requires_history(), *history);
        assert!(t.valid_tx_data());
        assert_eq!(parts(&t.amount_or_zero()), (0, 0));
    }
    assert!(deposit_of(0, 0, TransactionState::Open).valid_tx_data());
    assert!(deposit_of(0, 4, TransactionState::Open).valid_tx_data());
    assert!(!deposit_of(0, 5, TransactionState::Open).valid_tx_data());
    assert!(!deposit_of(-1, 0, TransactionState::Open).valid_tx_data());
    assert!(!deposit_of(-1, 4, TransactionState::Open).valid_tx_data());
}

#[test]
fn dispute_then_resolve_gives_the_balances_back() {
    let before = account_of(Decimal::new(725, 2), Decimal::new(1, 1), Decimal::new(735, 2), false);
    let mut account = before;
    let mut deposit = deposit_of(31250, 4, TransactionState::Open);

    account.apply_tx(&reference(TransactionType::Dispute), Some(&mut deposit));
    assert_eq!(parts(&account.available), (41250, 4));
    assert_eq!(parts(&account.held), (32250, 4));
    assert_eq!(deposit.state, TransactionState::ActiveDispute);

    account.apply_tx(&reference(TransactionType::Resolve), Some(&mut deposit));
    assert_eq!(account.available, before.available);
    assert_eq!(account.held, before.held);
    assert_eq!(parts(&account.total), parts(&before.total));
    assert_eq!(deposit.state, TransactionState::Open);
    assert!(!account.locked);
}

#[test]
fn second_resolve_and_second_chargeback_change_nothing() {
    let mut account = account_of(Decimal::new(-5, 0), Decimal::new(10, 0), Decimal::new(5, 0), false);
    let mut deposit = deposit_of(10, 0, TransactionState::ActiveDispute);
    account.apply_tx(&reference(TransactionType::Resolve), Some(&mut deposit));
    let once = account;
    assert_eq!(parts(&once.available), (5, 0));
    assert_eq!(parts(&once.held), (0, 0));
    account.apply_tx(&reference(TransactionType::Resolve), Some(&mut deposit));
    assert_eq!(parts(&account.available), parts(&once.available));
    assert_eq!(parts(&account.held), parts(&once.held));
    assert_eq!(parts(&account.total), parts(&once.total));
    assert_eq!(deposit.state, TransactionState::Open);

    let mut account = account_of(Decimal::new(-5, 0), Decimal::new(10, 0), Decimal::new(5, 0), false);
    let mut deposit = deposit_of(10, 0, TransactionState::ActiveDispute);
    account.apply_tx(&reference(TransactionType::Chargeback), Some(&mut deposit));
    let once = account;
    assert_eq!(parts(&once.total), (-5, 0));
    assert_eq!(parts(&once.held), (0, 0));
    assert!(once.locked);
    account.apply_tx(&reference(TransactionType::Chargeback), Some(&mut deposit));
    assert_eq!(parts(&account.available), parts(&once.available));
    assert_eq!(parts(&account.held), parts(&once.held));
    assert_eq!(parts(&account.total), parts(&once.total));
    assert!(account.locked);
    assert_eq!(deposit.state, TransactionState::ChargedBack);
}

#[test]
fn effect_names_what_an_event_does() {
    let account = account_of(Decimal::new(5, 0), Decimal::new(0, 0), Decimal::new(5, 0), false);
    let open = deposit_of(3, 0, TransactionState::Open);
    let held = deposit_of(3, 0, TransactionState::ActiveDispute);
    let gone = deposit_of(3, 0, TransactionState::ChargedBack);
    let empty = deposit_of(0, 0, TransactionState::Open);
    let mut other = open;
    other._type = TransactionType::Withdrawal;

    let is = |e: Effect, want: &str| {
        let got = match e {
            Effect::Ignored => "ignored".to_string(),
            Effect::Credit(a) => format!("credit {}", outside(&a)),
            Effect::Debit(a) => format!("debit {}", outside(&a)),
            Effect::Hold(a) => format!("hold {}", outside(&a)),
            Effect::Release(a) => format!("release {}", outside(&a)),
            Effect::Reverse(a) => format!("reverse {}", outside(&a)),
        };
        assert_eq!(got, want);
    };
    is(account.effect_of(&open, None), "credit 3");
    is(account.effect_of(&other, None), "debit 3");
    let mut six = other;
    six.amount = Some(Decimal::new(6, 0));
    is(account.effect_of(&six, None), "ignored");
    six.amount = Some(Decimal::new(50, 1));
    is(account.effect_of(&six, None), "debit 5.0");

    let d = reference(TransactionType::Dispute);
    let r = reference(TransactionType::Resolve);
    let c = reference(TransactionType::Chargeback);
    is(account.effect_of(&d, Some(&open)), "hold 3");
    is(account.effect_of(&d, Some(&held)), "ignored");
    is(account.effect_of(&d, Some(&gone)), "ignored");
    is(account.effect_of(&d, Some(&empty)), "ignored");
    is(account.effect_of(&d, Some(&other)), "ignored");
    is(account.effect_of(&d, None), "ignored");
    is(account.effect_of(&r, Some(&held)), "release 3");
    is(account.effect_of(&r, Some(&open)), "ignored");
    is(account.effect_of(&r, Some(&gone)), "ignored");
    is(account.effect_of(&r, None), "ignored");
    is(account.effect_of(&c, Some(&held)), "reverse 3");
    is(account.effect_of(&c, Some(&open)), "ignored");
    is(account.effect_of(&c, Some(&gone)), "ignored");
    is(account.effect_of(&c, None), "ignored");

    let mut locked = account;
    locked.locked = true;
    is(locked.effect_of(&open, None), "ignored");
    is(locked.effect_of(&other, None), "ignored");
    is(locked.effect_of(&d, Some(&open)), "hold 3");
    is(locked.effect_of(&r, Some(&held)), "release 3");
    is(locked.effect_of(&c, Some(&held)), "reverse 3");
}

#[test]
fn events_at_the_top_of_the_range_are_applied_exactly() {
    let five = deposit_of(50, 1, TransactionState::Open);

    // A withdrawal of 5.0 from 2^96 - 1.
    let mut account = account_of(big(MAX, 0), Decimal::new(0, 0), big(MAX, 0), false);
    let mut w = five;
    w._type = TransactionType::Withdrawal;
    assert!(account.can_apply(&w, None));
    account.apply_tx(&w, None);
    assert_eq!(parts(&account.available), (MAX - 5, 0));
    assert_eq!(parts(&account.total), (MAX - 5, 0));
    assert_eq!(parts(&account.held), (0, 0));

    // A resolve of 5.0 on a locked account that holds 2^96 - 1.
    let mut account = account_of(big(-MAX, 0), big(MAX, 0), Decimal::new(0, 0), true);
    let mut held = deposit_of(50, 1, TransactionState::ActiveDispute);
    assert!(account.can_apply(&reference(TransactionType::Resolve), Some(&held)));
    account.apply_tx(&reference(TransactionType::Resolve), Some(&mut held));
    assert_eq!(parts(&account.available), (-(MAX - 5), 0));
    assert_eq!(parts(&account.held), (MAX - 5, 0));
    assert!(account.locked);
    assert_eq!(held.state, TransactionState::Open);

    // A dispute of 5.0 on 2^96 - 1 available, and the resolve that undoes it.
    let before = account_of(big(MAX, 0), Decimal::new(0, 0), big(MAX, 0), false);
    let mut account = before;
    let mut deposit = five;
    assert!(account.can_apply(&reference(TransactionType::Dispute), Some(&deposit)));
    account.apply_tx(&reference(TransactionType::Dispute), Some(&mut deposit));
    assert_eq!(parts(&account.available), (MAX - 5, 0));
    assert_eq!(parts(&account.held), (50, 1));
    assert!(account.can_apply(&reference(TransactionType::Resolve), Some(&deposit)));
    account.apply_tx(&reference(TransactionType::Resolve), Some(&mut deposit));
    assert_eq!(account.available, before.available);
    assert_eq!(account.held, before.held);
    assert_eq!(parts(&account.available), (MAX, 0));
    assert_eq!(parts(&account.total), (MAX, 0));
    assert_eq!(deposit.state, TransactionState::Open);
}

#[test]
fn can_apply_tells_when_a_balance_would_leave_the_range() {
    let full = account_of(big(MAX, 0), Decimal::new(0, 0), big(MAX, 0), false);
    let one = deposit_of(1, 0, TransactionState::Open);
    assert!(!full.can_apply(&one, None));
    assert!(!full.fits(&Effect::Credit(Decimal::new(1, 0))));
    assert!(full.fits(&Effect::Debit(Decimal::new(1, 0))));
    assert!(full.fits(&Effect::Ignored));
    let mut w = one;
    w._type = TransactionType::Withdrawal;
    assert!(full.can_apply(&w, None));
    // A dispute that is ignored always fits.
    assert!(full.can_apply(&reference(TransactionType::Dispute), None));
    // One that acts moves the amount into `held`, which fits here.
    assert!(full.can_apply(&reference(TransactionType::Dispute), Some(&one)));
    let tiny = deposit_of(1, 4, TransactionState::Open);
    assert!(!full.can_apply(&reference(TransactionType::Dispute), Some(&tiny)));
    let mut locked = full;
    locked.locked = true;
    assert!(locked.can_apply(&one, None));
}
