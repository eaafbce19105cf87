use srt::{SrtError, Timestamp};

#[test]
fn ord() {
    let mut t1 = Timestamp::new(1, 1, 1, 1);
    let t2 = t1.clone();

    {
        assert!(t1 == t2);
        assert!(!(t1 != t2));

        assert!(t1 >= t2);
        assert!(t1 <= t2);

        assert!(!(t1 > t2));
        assert!(!(t1 < t2));
    }

    t1.miliseconds += 1;
    {
        assert!(!(t1 == t2));
        assert!(t1 != t2);

        assert!(t1 >= t2);
        assert!(!(t1 <= t2));

        assert!(t1 > t2);
        assert!(!(t1 < t2));
    }

    t1.miliseconds -= 2;
    {
        assert!(!(t1 == t2));
        assert!(t1 != t2);

        assert!(!(t1 >= t2));
        assert!(t1 <= t2);

        assert!(!(t1 > t2));
        assert!(t1 < t2);
    }
}

#[test]
fn add() {
    {
        let t1 = Timestamp::new(1, 1, 1, 1);
        let t2 = t1.clone();

        let t3 = Timestamp::new(2, 2, 2, 2);
        assert_eq!(t1 + t2, t3);
    }

    {
        let t1 = Timestamp::new(1, 58, 58, 900);
        let t2 = t1.clone();

        let t3 = Timestamp::new(3, 57, 57, 800);
        assert_eq!(t1 + t2, t3);
    }

    {
        let t1 = Timestamp::new(0, 59, 59, 999);
        let t2 = Timestamp::new(0, 0, 0, 1);

        let t3 = Timestamp::new(1, 0, 0, 0);
        assert_eq!(t1 + t2, t3);
    }
}

#[test]
fn add_assign() {
    {
        let mut t1 = Timestamp::new(1, 1, 1, 1);
        let t2 = Timestamp::new(2, 2, 2, 2);
        let same = t1;
        t1.add_assign(same);

        assert_eq!(t1, t2);
    }
    {
        let mut t1 = Timestamp::new(0, 59, 59, 999);
        let t2 = Timestamp::new(0, 0, 0, 1);
        t1.add_assign(t2);

        let t3 = Timestamp::new(1, 0, 0, 0);
        assert_eq!(t1, t3);
    }
}

#[test]
fn new() {
    {
        let t1 = Timestamp::new(1, 121, 120, 1100);
        let t2 = Timestamp::new(3, 3, 1, 100);
        assert_eq!(t1, t2);
    }
    {
        let t1 = Timestamp::new(1, 120, 120, 1000);
        let t2 = Timestamp::new(3, 2, 1, 0);
        assert_eq!(t1, t2);
    }
    {
        let t1 = Timestamp::new(0, 0, 3, 600000);
        let t2 = Timestamp::new(0, 10, 3, 0);
        assert_eq!(t1, t2);
    }
}

#[test]
fn sub() {
    {
        let t1 = Timestamp::new(1, 1, 1, 0);
        let t2 = Timestamp::new(0, 59, 59, 999);

        let t3 = Timestamp::new(0, 1, 1, 1);
        assert_eq!(t1 - t2, t3);
    }
    {
        let t1 = Timestamp::new(2, 2, 2, 2);
        let t2 = Timestamp::new(1, 1, 1, 1);

        let t3 = t2.clone();
        assert_eq!(t1 - t2, t3);
    }
    {
        let t1 = Timestamp::new(2, 0, 0, 0);
        let t2 = Timestamp::new(1, 59, 59, 999);

        let t3 = Timestamp::new(0, 0, 0, 1);
        assert_eq!(t1 - t2, t3);
    }
}

#[test]
fn sub_assign() {
    {
        let mut t1 = Timestamp::new(1, 1, 1, 0);
        let t2 = Timestamp::new(0, 59, 59, 999);
        t1.sub_assign(t2).unwrap();

        let t3 = Timestamp::new(0, 1, 1, 1);
        assert_eq!(t1, t3);
    }
    {
        let mut t1 = Timestamp::new(2, 2, 2, 2);
        let t2 = Timestamp::new(1, 1, 1, 1);
        t1.sub_assign(t2).unwrap();

        assert_eq!(t1, t2);
    }
    {
        let mut t1 = Timestamp::new(2, 0, 0, 0);
        let t2 = Timestamp::new(1, 59, 59, 999);
        t1.sub_assign(t2).unwrap();

        let t3 = Timestamp::new(0, 0, 0, 1);
        assert_eq!(t1, t3);
    }
}

#[test]
fn from_microseconds() {
    let t1 = Timestamp::new(0, 1, 1, 1);
    let t2 = Timestamp::new(0, 0, 0, 61001);
    let t3 = Timestamp::from_microseconds(61001000);

    assert_eq!(t1, t2);
    assert_eq!(t2, t3);
    assert_eq!(t1, t3);
}

#[test]
fn carry_goes_upward_field_by_field() {
    assert_eq!(Timestamp::new(1, 120, 120, 1000), Timestamp::new(3, 2, 1, 0));
    let t = Timestamp::new(0, 59, 59, 1000);
    assert_eq!((t.hours, t.minutes, t.seconds, t.miliseconds), (1, 0, 0, 0));
    let big = Timestamp::new(7, 61, 3661, 3_601_001);
    assert_eq!((big.hours, big.minutes, big.seconds, big.miliseconds), (10, 2, 2, 1));
}

#[test]
fn total_miliseconds_counts_hours_in_full() {
    assert_eq!(Timestamp::new(1, 0, 0, 0).total_miliseconds(), 3_600_000);
    assert_eq!(Timestamp::new(2, 3, 4, 5).total_miliseconds(), 7_384_005);
    assert_eq!(Timestamp::from_milliseconds(7_384_005), Timestamp::new(2, 3, 4, 5));
}

#[test]
fn order_agrees_with_totals() {
    let times = [
        Timestamp::new(0, 0, 0, 0),
        Timestamp::new(0, 0, 0, 999),
        Timestamp::new(0, 0, 1, 0),
        Timestamp::new(0, 59, 59, 999),
        Timestamp::new(1, 0, 0, 0),
        Timestamp::new(1, 0, 0, 1),
        Timestamp::new(25, 30, 0, 0),
    ];
    for a in times.iter() {
        for b in times.iter() {
            let holds = [a < b, a == b, a > b];
            assert_eq!(holds.iter().filter(|x| **x).count(), 1);
            assert_eq!(a < b, a.total_miliseconds() < b.total_miliseconds());
            assert_eq!(a == b, a.total_miliseconds() == b.total_miliseconds());
            assert_eq!(a > b, a.total_miliseconds() > b.total_miliseconds());
        }
    }
}

#[test]
fn subtract_refuses_a_later_time() {
    let early = Timestamp::new(0, 0, 1, 0);
    let late = Timestamp::new(0, 0, 2, 500);
    assert_eq!(late.subtract(early), Ok(Timestamp::new(0, 0, 1, 500)));
    assert_eq!(early.subtract(late), Err(SrtError::NegativeDuration));
    let mut t = early;
    assert_eq!(t.sub_assign(late), Err(SrtError::NegativeDuration));
    assert_eq!(t, early);
}
