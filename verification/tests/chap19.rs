// Panics.
#![allow(unused)]

/// Unwrapping `None` would panic.
#[test]
fn _19_01_01_panic() {
    let x: Option<i32> = None;
}
