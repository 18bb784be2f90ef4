use ed25519::stack::{init, pop, push};

#[test]
fn push_then_pop_returns_last() {
    let s = init();
    let s = push(String::from("first"), s);
    let s = push(String::from("second"), s);
    let (v, s) = pop(s);
    assert_eq!(v, Some(String::from("second")));
    let (v, s) = pop(s);
    assert_eq!(v, Some(String::from("first")));
    let (v, _s) = pop(s);
    assert_eq!(v, None);
}

#[test]
fn pop_of_empty_is_none() {
    let s = init();
    let (v, s) = pop(s);
    assert_eq!(v, None);
    let (v, _s) = pop(s);
    assert_eq!(v, None);
}
