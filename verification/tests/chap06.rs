// Arrays, ranges, slices and strings.
#![allow(unused, dead_code)]

use std::iter::Iterator;
use std::ops::Range;

/// Arrays have a length that is part of their type.
#[test]
fn _06_01_01_array() {
    let xs: [i32; 5] = [1, 2, 3, 4, 5];
    // every element the same
    let ys: [i32; 500] = [0; 500];
}

/// Arrays of one type can be assigned.
#[test]
fn _06_01_02_array() {
    let mut xs: [i32; 5] = [1, 2, 3, 4, 5];
    let ys: [i32; 5] = [6, 7, 8, 9, 10];
    xs = ys;
    println!("new array {:?}", xs);
}

/// Indexing starts at 0.
#[test]
fn _06_01_03_array() {
    let v: [i32; 5] = [1, 2, 3, 4, 5];
    let x = v[0] + v[1];
    println!("sum is {}", x);
}

#[test]
fn _06_01_04_array() {
    // arrays compare
    let v1 = [1, 2, 3];
    let v2 = [1, 2, 4];
    println!("{:?}", v1 < v2);

    let v = [0_i32; 10];
    for i in &v {
        println!("{:?}", i);
    }
}

/// Arrays of arrays.
#[test]
fn _06_01_05_array() {
    let v: [[i32; 2]; 3] = [[0, 0], [0, 0], [0, 0]];

    for i in &v {
        println!("{:?}", i);
    }
}

/// A borrowed array turns into a slice.
#[test]
fn _06_01_06_array() {
    fn mut_array(a: &mut [i32]) {
        a[2] = 5;
    }

    println!("size of &[i32; 3] : {:?}", std::mem::size_of::<&[i32; 3]>());
    println!("size of &[i32] : {:?}", std::mem::size_of::<&[i32]>());

    let mut v: [i32; 3] = [1, 2, 3];
    {
        let s: &mut [i32; 3] = &mut v;
        mut_array(s);
    }

    println!("{:?}", v);
}

/// Range
#[test]
fn _06_02_01_range() {
    // the half open interval from 1 to 10
    let r = 1..10;
    for i in r {
        println!("{:?}\t", i);
    }
}

#[test]
fn _06_02_02_range() {
    let r = Range { start: 1, end: 10 };
    for i in r {
        println!("{:?}\t", i);
    }
}

/// A range is an iterator.
#[test]
fn _06_02_03_range() {
    let r = (1i32..11).rev().map(|i| i * 10);

    for i in r {
        println!("{:?}\t", i);
    }
}

/// Ranges index slices.
#[test]
fn _06_02_04_slice() {
    fn print_slice(arr: &[i32]) {
        println!("Length: {}", arr.len());

        for item in arr {
            println!("{}\t", item);
        }
        println!("");
    }

    let arr: [i32; 5] = [1, 2, 3, 4, 5];
    print_slice(&arr[..]); // full range

    let slice = &arr[2..];
    print_slice(slice); // RangeFrom

    let slice2 = &slice[..2];
    print_slice(slice2); // RangeTo
}

/// `get` checks the index and does not panic.
#[test]
fn _06_03_01_bound() {
    let v = [10i32, 20, 30, 40, 50];
    let first = v.get(0);
    let tenth = v.get(10);
    println!("{:?} {:?}", first, tenth);
}

#[test]
fn _06_03_02_iterator() {
    let v = &[10i32, 20, 30, 40, 50];
    for (index, value) in v.iter().enumerate() {
        println!("{} {}", index, value);
    }
    let item = v.iter().filter(|&x| *x % 2 == 0).nth(2);
    println!("{:?}", item);
}

/// `&str`
#[test]
fn _06_04_01_string() {
    let greeting: &str = "Hello";
    let substr: &str = &greeting[2..];
    println!("{}", substr);

    // a string slice is a pointer and a length
    println!("Size of pointer: {}", std::mem::size_of::<&()>());
    println!("Size of &str   : {}", std::mem::size_of::<&str>());
}

/// `String` owns its text and can grow.
#[test]
fn _06_04_02_string() {
    let greeting: &str = "Hello";
    let mut s = String::from("Hello");
    s.push(' ');
    s.push_str("World.");
    println!("{}", s);

    fn capitalize(substr: &mut str) {
        substr.make_ascii_uppercase();
    }

    // `&mut String` is taken as `&mut str`
    capitalize(&mut s);
    println!("{}", s);
}
