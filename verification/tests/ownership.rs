//! Ownership and move behavior: values move on assignment and into calls,
//! vectors give up elements only deliberately, and reference counting shares
//! without moving.

use std::ptr;
use std::rc::{Rc, Weak};

use mandelbrot::arith::padovan;

struct Person {
    name: String,
    birth: i32,
}

#[derive(Copy, Clone)]
struct Label {
    number: u32,
}

fn print(l: Label) -> u32 {
    l.number
}

fn g(_x: Vec<u8>) {}

fn e(_x: Vec<u8>) {}

fn n() -> Vec<u8> {
    vec![11, 22, 33]
}

#[test]
fn test_padovan() {
    let padovan = padovan(10);
    println!("P(1..10) = {:?}", padovan);
}

#[test]
fn test_composers() {
    let mut composers = Vec::new();
    composers.push(Person {
        name: "Palestrina".to_string(),
        birth: 1525,
    });
    composers.push(Person {
        name: "Dowland".to_string(),
        birth: 1563,
    });
    composers.push(Person {
        name: "Lully".to_string(),
        birth: 1632,
    });

    for composer in &composers {
        println!("{}, born {}", composer.name, composer.birth)
    }

    assert_eq!("Palestrina", composers[0].name);
    assert_eq!(1525, composers[0].birth);
}

#[test]
fn test_assignment_move() {
    let s = vec!["udon".to_string(), "ramen".to_string(), "soba".to_string()];
    let t = s.clone();
    let u = s.clone();

    assert_eq!(s[0], "udon");
    assert_eq!(t[0], "udon");
    assert_eq!(u[0], "udon");
}

#[test]
fn test_operations_accompany_with_move() {
    let mut _s = "Govinda".to_string();
    _s = "Siddhartha".to_string(); // value "Govinda" dropped here
}

#[test]
fn test_move_and_value_ref_by_index() {
    // Build a vector of the strings "101", "102", ... "105".
    let mut v = Vec::new();
    for i in 101..106 {
        v.push(i.to_string());
    }

    assert_eq!(&v[1], "102");

    // 1. Pop a value off the end of the vector:
    let fifth = v.pop().expect("vector empty!");
    assert_eq!(fifth, "105");

    // 2. Move a value out of a given index in the vector,
    // and move the last element into its spot:
    let second = v.swap_remove(1);
    assert_eq!(second, "102");

    // 3. Swap in another value for the one we're taking out:
    let third = std::mem::replace(&mut v[2], "substitute".to_string());
    assert_eq!(third, "103");

    // Let's see what's left of our vector.
    assert_eq!(v, vec!["101", "104", "substitute"]);

    {
        let l = Label { number: 3 };
        assert_eq!(print(l), 3)
    }

    // A vector moved from in a loop must be given a fresh value each time
    // around before anything may use it afterwards.
    let mut x = vec![10, 20, 30];
    for _i in 0..10 {
        g(x); // move from x
        x = n(); // give x a fresh value
    }
    e(x);
}

#[test]
fn test_rc_and_arc() {
    // Rust can infer all these types; written out for clarity.
    let s: Rc<String> = Rc::new("shirataki".to_string());
    let t: Rc<String> = s.clone();
    let _u: Rc<String> = s.clone();

    assert!(s.contains("shira"));
    assert_eq!(t.find("taki"), Some(5));
}

#[test]
fn test_rc_weak() {
    let empty: Weak<i64> = Weak::new();
    assert_eq!(empty.strong_count(), 0);
    assert_eq!(empty.strong_count(), 0);

    let upgraded = empty.upgrade(); // Option<Rc<i64>>
    assert!(upgraded.is_none());
}

#[test]
fn test_as_ptr() {
    let strong = Rc::new("hello".to_owned()); // Rc<String>
    let weak = Rc::downgrade(&strong); // Weak<String>

    let ptr = &*strong; // &String
    assert!(ptr::eq(ptr, weak.as_ptr()));
    assert_eq!("hello", strong.as_str());
}
