//! The soft doubles against the doubles of the machine.

use linux_tui_monitor::double::Double;

fn float(d: Double) -> f64 {
    f64::from_bits(d.to_bits())
}

fn shown(d: Double, places: u32) -> String {
    let mut out = String::new();
    d.push_fixed(&mut out, places);
    out
}

/// Numbers of all sizes, with the edges of rounding among them.
fn numbers() -> Vec<u64> {
    let mut res: Vec<u64> = vec![
        0,
        1,
        2,
        3,
        5,
        7,
        10,
        99,
        100,
        512,
        1000,
        1023,
        1024,
        1_000_000_000,
        (1 << 53) - 1,
        1 << 53,
        (1 << 53) + 1,
        (1 << 53) + 2,
        (1 << 53) + 3,
        (1 << 54) + 2,
        (1 << 54) + 6,
        u64::MAX,
        u64::MAX - 1023,
        u64::MAX - 1024,
        u64::MAX - 1025,
    ];
    let mut x: u64 = 0x9e37_79b9_7f4a_7c15;
    for i in 0..60 {
        x = x.wrapping_mul(6364136223846793005).wrapping_add(1442695040888963407);
        res.push(x >> (i % 60));
    }
    res
}

#[test]
fn whole_numbers_round_as_the_machine_rounds_them() {
    for n in numbers() {
        assert_eq!(float(Double::from_u64(n)), n as f64);
    }
    assert_eq!(Double::from_u64((1 << 53) + 1).to_bits(), 9007199254740992f64.to_bits());
    assert_eq!(Double::zero().to_bits(), 0f64.to_bits());
    assert_eq!(Double::unity().to_bits(), 1f64.to_bits());
    assert_eq!(Double::hundred().to_bits(), 100f64.to_bits());
}

#[test]
fn quotients_and_products_round_as_the_machine_rounds_them() {
    for a in numbers() {
        for b in numbers() {
            let x = Double::from_u64(a);
            let y = Double::from_u64(b);
            assert_eq!(x.times(y).to_bits(), (a as f64 * b as f64).to_bits());
            if b > 0 {
                let q = x.over(y);
                assert_eq!(q.to_bits(), (a as f64 / b as f64).to_bits());
                assert_eq!(
                    q.times(Double::hundred()).to_bits(),
                    (a as f64 / b as f64 * 100.0).to_bits()
                );
            }
        }
    }
}

#[test]
fn sums_and_differences_round_as_the_machine_rounds_them() {
    for a in numbers() {
        for b in numbers() {
            let x = Double::from_u64(a).over(Double::from_u64(3));
            let y = Double::from_u64(b).over(Double::from_u64(7));
            let p = a as f64 / 3.0;
            let q = b as f64 / 7.0;
            assert_eq!(x.plus(y).to_bits(), (p + q).to_bits());
            assert_eq!(float(x.minus(y)), p - q);
            assert_eq!(x.less(y), p < q);
            assert_eq!(
                x.minus(y).less(y.minus(x)),
                (p - q) < (q - p)
            );
        }
    }
}

#[test]
fn fixed_places_are_those_of_the_machine() {
    for a in numbers() {
        for b in [1u64, 2, 3, 7, 8, 16, 200, 1024, 1000, 1 << 40] {
            let x = Double::from_u64(a).over(Double::from_u64(b));
            let p = a as f64 / b as f64;
            assert_eq!(shown(x, 0), format!("{:.0}", p));
            assert_eq!(shown(x, 1), format!("{:.1}", p));
            assert_eq!(shown(x, 2), format!("{:.2}", p));
        }
    }
}

#[test]
fn ties_go_to_the_even_digit() {
    let half = Double::unity().over(Double::from_u64(2));
    assert_eq!(shown(half, 0), "0");
    assert_eq!(shown(Double::from_u64(3).over(Double::from_u64(2)), 0), "2");
    assert_eq!(shown(Double::from_u64(1).over(Double::from_u64(8)), 2), "0.12");
    assert_eq!(shown(Double::from_u64(3).over(Double::from_u64(8)), 2), "0.38");
}

#[test]
fn negative_numbers_keep_their_sign() {
    let small = Double::from_u64(1).over(Double::from_u64(100));
    let x = Double::zero().minus(small);
    assert_eq!(float(x), -0.01);
    assert_eq!(shown(x, 1), format!("{:.1}", -0.01));
    assert_eq!(shown(x, 2), "-0.01");
    assert!(x.less(Double::zero()));
    assert_eq!(float(x.times(Double::hundred())), -0.01 * 100.0);
}

#[test]
fn shares_of_a_whole_stay_within_it() {
    for a in numbers() {
        for b in numbers() {
            if a <= b && b > 0 {
                let q = Double::from_u64(a).over(Double::from_u64(b));
                assert!(!Double::unity().less(q));
                assert!(!Double::hundred().less(q.times(Double::hundred())));
                let rest = Double::unity().minus(q).times(Double::hundred());
                assert!(!rest.less(Double::zero()));
                assert!(!Double::hundred().less(rest));
            }
        }
    }
}
