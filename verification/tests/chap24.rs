// Static and dynamic dispatch.
#![allow(unused, dead_code)]

#[test]
fn _24_01_01_dispatch() {
    trait Bird {
        fn fly(&self);
    }

    struct Duck;
    struct Swan;

    impl Bird for Duck {
        fn fly(&self) {
            println!("duck duck");
        }
    }

    impl Bird for Swan {
        fn fly(&self) {
            println!("swan swan");
        }
    }

    // static: one copy of the function per type
    fn test1<T: Bird>(arg: T) {
        arg.fly();
    }

    // dynamic: the method is found while running
    fn test2(arg: Box<dyn Bird>) {
        arg.fly();
    }
}

/// A trait whose `Self` is `Sized` cannot be made into an object.
#[test]
fn _23_02_01_object_safe() {
    trait Foo
    where
        Self: Sized,
    {
        fn foo(&self);
    }

    impl Foo for i32 {
        fn foo(&self) {
            println!("{}", self);
        }
    }

    let x = 1_i32;
    x.foo();
}

/// A single method can be kept out of the object.
#[test]
fn _23_02_02_object_safe() {
    trait Foo {
        fn foo1(&self);
        fn foo2(&self)
        where
            Self: Sized;
    }

    impl Foo for i32 {
        fn foo1(&self) {
            println!("foo1 {}", self);
        }

        fn foo2(&self)
        where
            Self: Sized,
        {
            println!("foo2 {}", self);
        }
    }

    let x = 1_i32;
    x.foo2();
    let p = &x as &dyn Foo;
}

#[test]
fn _23_02_03_object_safe() {
    trait Double {
        fn new() -> Self
        where
            Self: Sized;
        fn double(&mut self);
    }
    impl Double for i32 {
        fn new() -> Self
        where
            Self: Sized,
        {
            0
        }
        fn double(&mut self) {
            *self *= 2;
        }
    }
    let mut i = 1;
    let p: &mut dyn Double = &mut i as &mut dyn Double;
    p.double();
}

/// `impl Trait` names a type by what it can do.
#[test]
fn _23_03_01_impl_trait() {
    fn foo(n: u32) -> impl Iterator<Item = u32> {
        (0..n).map(|x| x * 100)
    }

    // a closure is returned without a box
    fn multiply(m: i32) -> impl Fn(i32) -> i32 {
        move |x| x * m
    }

    let f = multiply(5);
    println!("{}", f(2));

    // in a parameter
    fn test(f: impl Fn(i32) -> i32) {}

    // in the result of a trait's method
    trait MyTrait {}
    trait Test {
        fn test() -> impl MyTrait;
    }
}
