// Variables and the built-in types.
#![allow(unused, dead_code)]

use dive_into_rust::S;
use std::num::Wrapping;
use std::str::from_utf8;
use std::sync::atomic::AtomicBool;

/// A variable is declared before it is used.
#[test]
fn _02_01_variable_declaration() {
    let _variable: i32 = 100;
}

/// `let` declares, and it destructures a pattern.
#[test]
fn _02_03_pattern_destructure() {
    // `mut x` is one unit
    let mut _x = 5;
    _x = 10;

    // a tuple pattern
    let (mut _a, mut _b) = (1, 2);

    // a struct pattern
    let s1 = S { b: &true };
    let s2 = S { b: &s1 };
    let S { b: r1 } = s1;
    let S { b: &S { b: r2 } } = s2;
    println!("{} {} {} {}", s1.b, s2.b.b, r1, r2);
    println!("{:p} {:p} {:p} {:p}", s1.b, s2.b.b, r1, r2)
}

/// A type has no default constructor and a variable has no default value.
#[test]
fn _02_03_initialization() {
    fn initialization(condition: bool) {
        // declared without `mut`
        let x: i32;
        if condition {
            // this initialises x, it does not change it
            x = 1;
            println!("{}", x);
        }
        // x may stay uninitialised as long as it is not read
    }
    initialization(true);
    initialization(false);
}

/// The placeholder ignores a binding.
#[test]
fn _02_03_placeholder() {
    let _ = "hello";
    let arr = ['a', 'b', 'c'];
    let mut result: &str = "";
    for (_i, n) in arr.iter().enumerate() {
        match n {
            'a' => result = "Yeah!",
            _ => (),
        };
    }
    println!("{:?}", result);
}

/// Shadowing.
#[test]
fn _02_01_01_variable_shadowing() {
    let x = "hello";
    println!("x is {}", x);

    let x = 5;
    println!("x is {}", x);

    // `v` has to be `mut` to be written to
    let mut v = Vec::new();
    v.push(1);
    v.push(2);
    v.push(3);

    for i in &v {
        println!("{}", i);
    }

    // an immutable binding can be shadowed by a mutable one
    let v = Vec::new();
    let mut v = v;
    v.push(1);
    println!("{:?}", v);
}

/// Type inference.
#[test]
fn _02_01_02_type_infer() {
    // the suffix tells that elem is a u8
    let elem = 5u8;

    // the element type follows from the push below
    let mut vec = Vec::new();
    vec.push(elem);
    println!("{:?}", vec);

    let player_scores = [("Jack", 20), ("Jane", 23), ("Jill", 18), ("John", 19)];

    // the element type of players is left to the compiler
    let players: Vec<_> = player_scores.iter().map(|&(player, _score)| player).collect();

    println!("{:?}", players);

    // `sum` is generic in its result, so the type has to be named
    let a: i32 = (0..5).sum();
    let b: i32 = [0, 1, 2, 3, 4].iter().sum();
    assert_eq!(a, b);

    let c = [0, 1, 2, 3, 4].iter().sum::<i32>();
    assert_eq!(a, c);
}

/// Type aliases.
#[test]
fn _02_01_03_type_alias() {
    type Age = u32;

    fn grow(age: Age, year: u32) -> Age {
        age + year
    }

    let x: Age = 20;

    println!("20 years later: {}", grow(x, 20));

    // an alias can be generic
    type Double<T> = (T, Vec<T>);
}

/// Static variables.
#[test]
fn _02_01_04_static_variable() {
    static _GLOBAL: i32 = 0;

    // a local may be initialised later, as long as that happens before use
    let x;
    let y = 1_i32;
    x = 2_i32;
    println!("{} {}", x, y);

    // a static is initialised where it is declared
    static G1: i32 = 3;
    println!("{}", G1);

    // the initialiser of a static is a constant expression
    static _ARRAY: [i32; 3] = [1, 2, 3];

    static _FLAG: AtomicBool = AtomicBool::new(true);
}

/// Constants.
#[test]
fn _02_01_05_constant() {
    const _GLOBAL: i32 = 0;
}

/// bool
#[test]
fn _02_02_01_bool() {
    let x = true;
    let y: bool = !x;

    let z = x && y;
    println!("{}", z);

    let z = x || y;
    println!("{}", z);

    let z = x & y;
    println!("{}", z);

    let z = x | y;
    println!("{}", z);

    let z = x ^ y;
    println!("{}", z);

    fn logical_op(x: i32, y: i32) {
        let z: bool = x < y;
        println!("{}", z);
    }
}

/// char
#[test]
fn _02_02_02_char() {
    let love = '❤'; // any unicode character
    let c1 = '\n'; // line feed
    let c2 = '\x7f'; // 8 bit character
    let c3 = '\u{7FFF}'; // unicode character

    println!("{} {} {} {}", love, c1, c2, c3);

    // byte literals hold ASCII in a u8
    let x: u8 = 1;
    let y: u8 = b'A';
    let s: &[u8; 5] = b"hello";
    let r: &[u8; 14] = br#"hello \n world"#;

    println!("{} {} {:?} {:?}", x, y, from_utf8(s).unwrap(), from_utf8(r).unwrap());
}

/// Integers.
#[test]
fn _02_02_03_integer() {
    let _var1: i32 = 32; // decimal
    let _var2: i32 = 0xFF; // hexadecimal
    let _var3: i32 = 0o55; // octal
    let _var4: i32 = 0b1001; // binary

    // underscores may stand anywhere in a number
    let _var5 = 0x_1234_ABCD;
    let _var6 = 123usize;
    let _var7 = 0x_ff_u8;
    let _var8 = 32;

    let x: i32 = 9;
    println!("9 power 3 = {}", x.pow(3));
    println!("9 power 3 = {}", 9_i32.pow(3));
}

/// Integer overflow.
#[test]
fn _02_02_04_integer_overflow() {
    fn arithmetic(m: i8, n: i8) {
        // may overflow
        println!("{}", m + n);
    }

    let m: i8 = 120;
    let n: i8 = 120;

    let i = 100_i8;
    println!("checked {:?}", i.checked_add(i));
    println!("saturating {:?}", i.saturating_add(i));
    println!("wrapping {:?}", i.wrapping_add(i));

    let big = Wrapping(std::u32::MAX);
    let sum = big + Wrapping(2_u32);
    println!("{}", sum.0);
}

/// Floats.
#[test]
fn _02_02_05_float() {
    let _f1 = 123.0f64;
    let _f2 = 0.1f64;
    let _f3 = 0.1f32;
    let _f4 = 12E+99_f64;
    let _f5: f64 = 2.;

    enum FpCategory {
        Nan,
        Infinite,
        Zero,
        Subnormal,
        Normal,
    }

    // start from a very small number and halve it until it is zero
    let mut small = std::f32::EPSILON;
    while small > 0.0 {
        small = small / 2.0;
        println!("{} {:?}", small, small.classify());
    }

    let x = 1.0f32 / 0.0; // infinite
    let y = 0.0f32 / 0.0; // not a number
    println!("{} {}", x, y);

    let inf = std::f32::INFINITY;
    println!("{} {} {}", inf * 0.0, 1.0 / inf, inf / inf);

    let nan = std::f32::NAN;
    println!("{} {} {}", nan < nan, nan > nan, nan == nan);
}

/// Pointer types.
#[test]
fn _02_02_06_pointer() {
    // Box<T>, &T, &mut T, Rc<T>, Arc<T>, Cow<'a, T>
}

/// Conversions with `as`.
#[test]
fn _02_02_07_type_transform() {
    let var1: i8 = 41;
    let var2: i16 = var1 as i16;
}

/// Tuples.
#[test]
fn _02_03_01_tuple() {
    let a = (1i32, false);
    let b = ("a", (1i32, 2i32));

    // a tuple of one element takes a comma
    let a = (0,);
    let b = (0);

    // elements are reached by a pattern or by an index
    let p = (1i32, 2i32);
    let (a, b) = p;

    let x = p.0;
    let y = p.1;

    println!("{} {} {} {}", a, b, x, y);

    println!("size of i8 {}", std::mem::size_of::<i8>());
    println!("size of char {}", std::mem::size_of::<char>());
    println!("size of '()' {}", std::mem::size_of::<()>());
}

/// Structs.
#[test]
fn _02_03_02_struct() {
    struct Point {
        x: i32,
        y: i32,
    }
    let p = Point { x: 0, y: 0 };
    println!("Point is at {} {}", p.x, p.y);

    // a local of the field's name can be written once
    let x = 10;
    let y = 20;
    let o = Point { x, y };
    println!("Point is at {} {}", o.x, o.y);

    // a struct pattern
    let q = Point { x: 0, y: 0 };
    let Point { x: px, y: py } = q;
    println!("Point is at {} {}", px, py);

    let Point { x, y } = q;
    println!("Point is at {} {}", x, y);

    struct Point3d {
        x: i32,
        y: i32,
        z: i32,
    }

    fn default() -> Point3d {
        Point3d { x: 0, y: 0, z: 0 }
    }

    // the rest of the fields comes from another value
    let origin = Point3d { x: 5, ..default() };
    let point = Point3d { z: 1, x: 2, ..origin };

    struct Foo1;
    struct Foo2();
    struct Foo3 {}
}

/// Tuple structs.
#[test]
fn _02_03_03_tuple_struct() {
    struct Color(i32, i32, i32);
    struct Point(i32, i32, i32);

    struct T1 {
        v: i32,
    }
    struct T2(i32);

    let v1 = T1 { v: 1 };
    let v2 = T2(1);
    let v3 = T2 { 0: 1 };

    let i1 = v1.v;
    let i2 = v2.0;
    let i3 = v3.0;
}

/// A type that holds itself does so behind a pointer.
#[test]
fn _02_03_05_type_recursion() {
    struct Recursive {
        data: i32,
        rec: Box<Recursive>,
    }
}
