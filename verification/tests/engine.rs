use htb::{BucketCfg, Error, TimeSpan, HTB};

#[derive(Copy, Clone, Debug, Eq, PartialEq)]
enum Rate {
    Long,
    Short,
    Hedge,
    HedgeFut,
    Make,
}

impl From<Rate> for usize {
    fn from(rate: Rate) -> Self {
        rate as usize
    }
}

fn sample_htb() -> HTB<Rate> {
    HTB::new(&[
        BucketCfg {
            this: Rate::Long,
            parent: None,
            rate: (100, TimeSpan::from_millis(200)),
            capacity: 1500,
        },
        BucketCfg {
            this: Rate::Short,
            parent: Some(Rate::Long),
            rate: (250, TimeSpan::from_secs(1)),
            capacity: 250,
        },
        BucketCfg {
            this: Rate::Hedge,
            parent: Some(Rate::Short),
            rate: (1000, TimeSpan::from_secs(1)),
            capacity: 10,
        },
        BucketCfg {
            this: Rate::HedgeFut,
            parent: Some(Rate::Hedge),
            rate: (2000, TimeSpan::from_secs(2)),
            capacity: 10,
        },
        BucketCfg {
            this: Rate::Make,
            parent: Some(Rate::Short),
            rate: (1000, TimeSpan::from_secs(1)),
            capacity: 6,
        },
    ])
    .unwrap()
}

#[test]
fn it_works() {
    let mut htb = sample_htb();
    assert!(htb.take_n(Rate::Hedge, 4));
    assert!(htb.take_n(Rate::Hedge, 4));
    assert!(htb.take_n(Rate::Hedge, 2));
    assert!(!htb.take_n(Rate::Hedge, 1));
    htb.advance(TimeSpan::from_millis(1));
    assert!(htb.peek_n(Rate::Hedge, 1));
    assert!(!htb.peek_n(Rate::Hedge, 2));
    assert!(htb.take(Rate::Hedge));
    assert!(!htb.take(Rate::Hedge));
    htb.advance(TimeSpan::from_millis(5));
    assert!(htb.peek_n(Rate::Hedge, 5));
    assert!(!htb.peek_n(Rate::Hedge, 6));
    htb.advance_ns(usize::MAX / 2);
    assert!(htb.take_n(Rate::Hedge, 4));
    htb.advance_ns(usize::MAX);
    assert!(htb.take_n(Rate::Hedge, 4));
}

#[test]
fn unit_cost_is_lcm_of_periods() {
    // lcm(200ms, 1s, 1s, 2s, 1s) = 2s = 2e9 ns
    let htb = sample_htb();
    assert_eq!(htb.unit_cost, 2_000_000_000);
}

#[test]
fn empty_config_is_no_root() {
    let cfgs: [BucketCfg<Rate>; 0] = [];
    assert!(matches!(HTB::<Rate>::new(&cfgs), Err(Error::NoRoot)));
}

#[test]
fn parented_first_entry_is_no_root() {
    let r = HTB::new(&[BucketCfg {
        this: Rate::Long,
        parent: Some(Rate::Short),
        rate: (100, TimeSpan::from_millis(200)),
        capacity: 1500,
    }]);
    assert!(matches!(r, Err(Error::NoRoot)));
}

#[test]
fn misplaced_label_is_invalid_structure() {
    let r = HTB::new(&[
        BucketCfg {
            this: Rate::Long,
            parent: None,
            rate: (100, TimeSpan::from_millis(200)),
            capacity: 1500,
        },
        BucketCfg {
            this: Rate::Hedge,
            parent: Some(Rate::Long),
            rate: (250, TimeSpan::from_secs(1)),
            capacity: 250,
        },
    ]);
    assert!(matches!(r, Err(Error::InvalidStructure)));
}

#[test]
fn dangling_parent_is_invalid_structure() {
    let r = HTB::new(&[
        BucketCfg {
            this: Rate::Long,
            parent: None,
            rate: (100, TimeSpan::from_millis(200)),
            capacity: 1500,
        },
        BucketCfg {
            this: Rate::Short,
            parent: Some(Rate::Long),
            rate: (250, TimeSpan::from_secs(1)),
            capacity: 250,
        },
        BucketCfg {
            this: Rate::Hedge,
            parent: Some(Rate::HedgeFut),
            rate: (1000, TimeSpan::from_secs(1)),
            capacity: 10,
        },
    ]);
    assert!(matches!(r, Err(Error::InvalidStructure)));
}

#[test]
fn coprime_large_periods_are_invalid_rate() {
    // two coprime periods near a second make the common multiple huge
    let r = HTB::new(&[
        BucketCfg {
            this: Rate::Long,
            parent: None,
            rate: (100, TimeSpan::from_nanos(999_999_993)),
            capacity: 1500,
        },
        BucketCfg {
            this: Rate::Short,
            parent: Some(Rate::Long),
            rate: (250, TimeSpan::from_nanos(999_999_991)),
            capacity: 250,
        },
    ]);
    assert!(matches!(r, Err(Error::InvalidRate)));
}

#[test]
fn advance_by_zero_changes_nothing() {
    let mut htb = sample_htb();
    assert!(htb.take_n(Rate::Hedge, 3));
    let before = [
        htb.index(Rate::Long),
        htb.index(Rate::Short),
        htb.index(Rate::Hedge),
        htb.index(Rate::HedgeFut),
        htb.index(Rate::Make),
    ];
    htb.advance_ns(0);
    let after = [
        htb.index(Rate::Long),
        htb.index(Rate::Short),
        htb.index(Rate::Hedge),
        htb.index(Rate::HedgeFut),
        htb.index(Rate::Make),
    ];
    assert_eq!(before, after);
}

#[test]
fn zero_token_demands_always_succeed() {
    let mut htb = sample_htb();
    assert!(htb.take_n(Rate::Hedge, 10));
    let before = htb.index(Rate::Hedge);
    assert!(htb.peek_n(Rate::Hedge, 0));
    assert!(htb.take_n(Rate::Hedge, 0));
    assert_eq!(htb.index(Rate::Hedge), before);
}

#[test]
fn oversized_demand_is_refused_not_overflowed() {
    let mut htb = sample_htb();
    // unit_cost * usize::MAX would overflow: the demand is never satisfiable
    assert!(!htb.peek_n(Rate::Long, usize::MAX));
    assert!(!htb.take_n(Rate::Long, usize::MAX));
    assert_eq!(htb.index(Rate::Long), 1500 * htb.unit_cost);
}

#[test]
fn take_debits_exactly_its_units() {
    let mut htb = sample_htb();
    let before = htb.index(Rate::Hedge);
    assert!(htb.take_n(Rate::Hedge, 3));
    assert_eq!(htb.index(Rate::Hedge), before - 3 * htb.unit_cost);
    let mid = htb.index(Rate::Hedge);
    assert!(!htb.take_n(Rate::Hedge, 8));
    assert_eq!(htb.index(Rate::Hedge), mid);
    assert!(htb.take(Rate::Hedge));
    assert_eq!(htb.index(Rate::Hedge), mid - htb.unit_cost);
}

#[test]
fn root_capacity_is_enforced() {
    let mut htb = sample_htb();
    htb.advance(TimeSpan::from_secs(100));
    assert!(htb.take_n(Rate::Long, 1500));
    assert!(!htb.take_n(Rate::Long, 1));
}

#[test]
fn earlier_sibling_starves_later_one() {
    let mut htb = sample_htb();
    assert!(htb.take_n(Rate::Short, 250));
    assert!(htb.take_n(Rate::Hedge, 10));
    assert!(htb.take_n(Rate::Make, 6));
    // 4 ms lets only one token through the shared parent edge
    htb.advance(TimeSpan::from_millis(4));
    assert!(htb.take(Rate::Hedge));
    assert!(!htb.take(Rate::Make));
}

#[test]
fn leaves_never_lose_tokens_on_advance() {
    let mut htb = sample_htb();
    assert!(htb.take_n(Rate::HedgeFut, 5));
    assert!(htb.take_n(Rate::Make, 6));
    let fut_before = htb.index(Rate::HedgeFut);
    let make_before = htb.index(Rate::Make);
    htb.advance(TimeSpan::from_millis(3));
    assert!(htb.index(Rate::HedgeFut) >= fut_before);
    assert!(htb.index(Rate::Make) >= make_before);
}

#[test]
fn one_tick_gains_at_most_the_root_inflow() {
    let mut htb = sample_htb();
    assert!(htb.take_n(Rate::Long, 1500));
    assert!(htb.take_n(Rate::Short, 250));
    assert!(htb.take_n(Rate::Hedge, 10));
    assert!(htb.take_n(Rate::HedgeFut, 10));
    assert!(htb.take_n(Rate::Make, 6));
    let sum_before: usize = htb.index(Rate::Long)
        + htb.index(Rate::Short)
        + htb.index(Rate::Hedge)
        + htb.index(Rate::HedgeFut)
        + htb.index(Rate::Make);
    htb.advance(TimeSpan::from_millis(1));
    let sum_after: usize = htb.index(Rate::Long)
        + htb.index(Rate::Short)
        + htb.index(Rate::Hedge)
        + htb.index(Rate::HedgeFut)
        + htb.index(Rate::Make);
    // root edge: 100 tokens per 200 ms = 1000 units/ns over 1 ms
    assert!(sum_after - sum_before <= 1000 * 1_000_000);
}

#[test]
fn time_spans_count_nanoseconds() {
    assert_eq!(TimeSpan::from_nanos(7).nanos, 7);
    assert_eq!(TimeSpan::from_micros(3).nanos, 3_000);
    assert_eq!(TimeSpan::from_millis(200).nanos, 200_000_000);
    assert_eq!(TimeSpan::from_secs(2).nanos, 2_000_000_000);
}

#[test]
fn fresh_engine_allows_full_burst() {
    let mut htb = sample_htb();
    assert!(htb.peek(Rate::Long));
    assert!(htb.peek_n(Rate::Make, 6));
    assert!(!htb.peek_n(Rate::Make, 7));
    assert!(htb.take_n(Rate::Make, 6));
    assert!(!htb.peek(Rate::Make));
}

#[test]
fn huge_spans_saturate_without_overflow() {
    let mut htb = sample_htb();
    assert!(htb.take_n(Rate::Hedge, 10));
    htb.advance(TimeSpan { nanos: u128::MAX });
    assert!(htb.take_n(Rate::Hedge, 10));
}

#[test]
fn oversized_capacity_is_invalid_rate() {
    let r = HTB::new(&[BucketCfg {
        this: Rate::Long,
        parent: None,
        rate: (1, TimeSpan::from_secs(2)),
        capacity: usize::MAX,
    }]);
    assert!(matches!(r, Err(Error::InvalidRate)));
}

#[test]
fn oversized_scaled_rate_is_invalid_rate() {
    let r = HTB::new(&[
        BucketCfg {
            this: Rate::Long,
            parent: None,
            rate: (usize::MAX, TimeSpan::from_nanos(2)),
            capacity: 1,
        },
        BucketCfg {
            this: Rate::Short,
            parent: Some(Rate::Long),
            rate: (1, TimeSpan::from_secs(1)),
            capacity: 1,
        },
    ]);
    assert!(matches!(r, Err(Error::InvalidRate)));
}

#[test]
fn error_messages_name_the_failure() {
    let cfgs: [BucketCfg<Rate>; 0] = [];
    match HTB::<Rate>::new(&cfgs) {
        Err(e) => assert_eq!(e.message(), "Problem with a root node of some sort"),
        Ok(_) => panic!("an empty configuration has no root"),
    }
}
