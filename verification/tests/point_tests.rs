use ed25519::field::{expmod, inv, l, q};
use ed25519::point::{b_point, d_const, edwards, i_const, isoncurve, scalarmult, Point};
use num_bigint::BigInt;

fn big(s: &str) -> BigInt {
    s.parse::<BigInt>().unwrap()
}

#[test]
fn expmod_small_values() {
    let r = expmod(&BigInt::from(3), &BigInt::from(5), &BigInt::from(7));
    assert_eq!(r, BigInt::from(5));
    let r = expmod(&BigInt::from(2), &BigInt::from(0), &BigInt::from(97));
    assert_eq!(r, BigInt::from(1));
    let r = expmod(&BigInt::from(10), &BigInt::from(3), &BigInt::from(1000));
    assert_eq!(r, BigInt::from(0));
}

#[test]
fn inverse_times_value_is_one() {
    let five = BigInt::from(5);
    let iv = inv(&five);
    let qq = q();
    assert_eq!((iv * five) % qq, BigInt::from(1));
}

#[test]
fn curve_constants_satisfy_their_defining_equations() {
    let qq = q();
    // d * 121666 == -121665 mod q
    let d = d_const();
    assert_eq!(
        (d * BigInt::from(121666) + BigInt::from(121665)) % &qq,
        BigInt::from(0)
    );
    // i * i == -1 mod q
    let i = i_const();
    assert_eq!((&i * &i + BigInt::from(1)) % &qq, BigInt::from(0));
    // the base point's y is 4/5 mod q
    let b = b_point();
    assert_eq!((&b.y * BigInt::from(5)) % &qq, BigInt::from(4) % &qq);
    // l is prime-sized and odd
    let ll = l();
    assert_eq!(&ll % BigInt::from(2), BigInt::from(1));
}

#[test]
fn base_point_is_on_the_curve() {
    let b = b_point();
    assert!(isoncurve(&b));
    let off = Point::new(BigInt::from(1), BigInt::from(1));
    assert!(!isoncurve(&off));
}

#[test]
fn neutral_element_laws() {
    // scalar zero yields the neutral point
    let b = b_point();
    let z = scalarmult(&b, &BigInt::from(0));
    assert_eq!(z.x, BigInt::from(0));
    assert_eq!(z.y, BigInt::from(1));
    // adding the neutral point returns the point unchanged
    let neutral = Point::new(BigInt::from(0), BigInt::from(1));
    let r = edwards(&b, &neutral);
    assert_eq!(r.x, b.x);
    assert_eq!(r.y, b.y);
}

#[test]
fn doubling_the_base_point() {
    let b = b_point();
    let d2 = edwards(&b, &b);
    assert_eq!(
        d2.x,
        big("24727413235106541002554574571675588834622768167397638456726423682521233608206")
    );
    assert_eq!(
        d2.y,
        big("15549675580280190176352668710449542251549572066445060580507079593062643049417")
    );
}

#[test]
fn scalar_multiplication_is_additive_on_small_scalars() {
    let b = b_point();
    let b3 = scalarmult(&b, &BigInt::from(3));
    let b5 = scalarmult(&b, &BigInt::from(5));
    let b8 = scalarmult(&b, &BigInt::from(8));
    let sum = edwards(&b3, &b5);
    assert_eq!(sum.x, b8.x);
    assert_eq!(sum.y, b8.y);
    assert_eq!(
        b3.x,
        big("46896733464454938657123544595386787789046198280132665686241321779790909858396")
    );
}
