use checkdigits::modular::Modular;

#[test]
pub fn addition() {
    let x = Modular::new(1, 11);
    let y = Modular::new(10, 11);
    let z = x.add(y);
    assert_eq!(z.value(), 0);
}

#[test]
pub fn subtraction() {
    let x = Modular::new(1, 11);
    let y = Modular::new(10, 11);
    let z = x.sub(y);
    assert_eq!(z.value(), 2);
}

#[test]
pub fn multiplication() {
    let x = Modular::new(4, 11);
    let y = Modular::new(7, 11);
    let z = x.mul(y);
    assert_eq!(z.value(), 6);
    assert_eq!(z.modulus(), 11);
}

#[test]
pub fn division() {
    let x = Modular::new(-6, 11);
    let y = Modular::new(9, 11);
    let z = x.div(y);
    assert_eq!(z.value(), 3);

    let x = Modular::new(-8, 11);
    let y = Modular::new(9, 11);
    let z = x.div(y);
    assert_eq!(z.value(), 4);
}

#[test]
pub fn pow() {
    let x = Modular::new(5, 11);
    assert_eq!(x.pow(2).value(), 3);
    assert_eq!(x.pow(47).value(), 3);
    assert_eq!(x.pow(34).value(), 9);
    assert_eq!(x.pow(35).value(), 1);
}

#[test]
pub fn try_div_rejects_mismatched_modulus() {
    let x = Modular::new(3, 11);
    let y = Modular::new(3, 7);
    assert!(x.try_div(y).is_err());
}

#[test]
pub fn try_div_rejects_zero() {
    let x = Modular::new(3, 11);
    let y = Modular::new(0, 11);
    assert!(x.try_div(y).is_err());
}

#[test]
pub fn sqrt_finds_least_root() {
    let x = Modular::new(3, 11);
    let r = x.sqrt().unwrap();
    assert_eq!(r.value(), 5);
}

#[test]
pub fn sqrt_of_zero_is_zero() {
    let x = Modular::new(0, 11);
    let r = x.sqrt().unwrap();
    assert_eq!(r.value(), 0);
}

#[test]
pub fn sqrt_fails_without_root() {
    let x = Modular::new(2, 11);
    assert!(x.sqrt().is_err());
}
