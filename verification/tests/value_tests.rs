use rune::heap::Context;
use rune::object::Cons;
use rune::value::{Fixnum, LispObj, Tag, TAG_LONG_STR};

#[test]
fn sizes() {
    assert_eq!(8, std::mem::size_of::<LispObj>());
    assert_eq!(16, std::mem::size_of::<Cons>());
    assert_eq!(2, std::mem::size_of::<Tag>());
}

#[test]
fn fixnum() {
    let x = LispObj::from_int(7);
    assert!(x.is_fixnum());
    assert_eq!(7, x.as_int().unwrap());
    assert_eq!(Fixnum::from_int(7), x.as_fixnum().unwrap());
    assert_eq!(7, x.as_fixnum().unwrap().value());
    assert_eq!(-3, LispObj::from_int(-3).as_int().unwrap());
}

#[test]
fn other() {
    let v = LispObj::void();
    assert!(v.is_void());
    let t = LispObj::t();
    assert!(t.is_true());
    let n = LispObj::nil();
    assert!(n.is_nil());
    let bool_true = LispObj::from_bool(true);
    assert!(bool_true.is_true());
    let bool_false = LispObj::from_bool(false);
    assert!(bool_false.is_nil());
}

#[test]
fn cons() {
    let mut cx = Context::new();
    let start = cx.add_str(String::from("start")).unwrap();
    let f = cx.add_float_bits(3.3f64.to_bits()).unwrap();
    let five = LispObj::from_int(5);
    let seven = LispObj::from_int(7);
    let inner2 = cx.add_cons(Cons::new(five, f)).unwrap();
    let inner1 = cx.add_cons(Cons::new(seven, inner2)).unwrap();
    let x = cx.add_cons(Cons::new(start, inner1)).unwrap();
    assert!(x.is_cons());

    assert_eq!("start", cx.get_str(cx.car(x)).as_str());
    let start2 = cx.add_str(String::from("start2")).unwrap();
    cx.set_car(x, start2);
    assert_eq!("start2", cx.get_str(cx.car(x)).as_str());

    let cons2 = cx.cdr(x);
    assert_eq!(7, cx.car(cons2).as_int().unwrap());

    let cons3 = cx.cdr(cons2);
    assert_eq!(5, cx.car(cons3).as_int().unwrap());
    let tail = cx.cdr(cons3);
    assert!(tail.is_float());
    assert_eq!(3.3, f64::from_bits(cx.float_bits(tail)));
}

#[test]
fn fixnum_arithmetic_wraps_over_the_fixnum_range() {
    let a = Fixnum::from_int(3);
    let b = Fixnum::from_int(4);
    assert_eq!(7, a.plus(b).value());
    assert_eq!(-1, a.minus(b).value());
    assert_eq!(12, a.times(b).value());
    assert_eq!(0, a.quotient(b).value());
    assert_eq!(3, Fixnum::from_int(13).quotient(b).value());
    assert_eq!(-3, Fixnum::from_int(-13).quotient(b).value());
    let top = Fixnum::from_int(0x1FFF_FFFF_FFFF_FFFF);
    let one = Fixnum::from_int(1);
    assert_eq!(-0x2000_0000_0000_0000, top.plus(one).value());
    let bottom = Fixnum::from_int(-0x2000_0000_0000_0000);
    assert_eq!(0x1FFF_FFFF_FFFF_FFFF, bottom.minus(one).value());
    let two = Fixnum::from_int(2);
    let high = Fixnum::from_int(0x1000_0000_0000_0000);
    assert_eq!(-0x2000_0000_0000_0000, high.times(two).value());
}

#[test]
fn tags_never_collide() {
    let vals = [
        LispObj::from_int(0),
        LispObj::from_int(-1),
        LispObj::nil(),
        LispObj::t(),
        LispObj::void(),
    ];
    for v in vals.iter() {
        let mut classes = 0;
        if v.is_fixnum() {
            classes += 1;
        }
        if v.is_nil() {
            classes += 1;
        }
        if v.is_true() {
            classes += 1;
        }
        if v.is_void() {
            classes += 1;
        }
        if v.is_cons() || v.is_str() || v.is_symbol() || v.is_float() {
            classes += 1;
        }
        assert_eq!(classes, 1);
    }
    let mut cx = Context::new();
    let s = cx.add_str(String::from("x")).unwrap();
    assert!(s.is_str());
    assert!(!s.is_fixnum() && !s.is_nil() && !s.is_cons() && !s.is_symbol());
    assert_eq!(s.type_of(), Tag(TAG_LONG_STR));
}
