use rune::allocators::{list, make_byte_code, make_closure, make_vector, purecopy, record, vector};
use rune::error::Error;
use rune::heap::{CellData, Context};
use rune::print::print_obj;
use rune::value::LispObj;

#[test]
fn list_builds_a_nil_terminated_chain() {
    let mut cx = Context::new();
    let items = [
        LispObj::from_int(1),
        LispObj::from_int(2),
        LispObj::from_int(3),
    ];
    let head = list(&items, &mut cx).unwrap();
    // (1 . (2 . (3 . nil)))
    let mut v = head;
    for expect in [1i64, 2, 3] {
        assert!(v.is_cons());
        assert_eq!(cx.car(v).as_int().unwrap(), expect);
        v = cx.cdr(v);
    }
    assert!(v.is_nil());
    assert_eq!(print_obj(&cx, head).unwrap().as_str(), "(1 2 3)");
}

#[test]
fn empty_list_is_nil() {
    let mut cx = Context::new();
    let head = list(&[], &mut cx).unwrap();
    assert!(head.is_nil());
}

#[test]
fn make_vector_of_length_zero() {
    let mut cx = Context::new();
    let v = make_vector(0, LispObj::from_int(5), &mut cx).unwrap();
    assert!(v.is_vector());
    assert_eq!(cx.vector_len(v), 0);
}

#[test]
fn make_vector_fills_every_slot() {
    let mut cx = Context::new();
    let v = make_vector(4, LispObj::from_int(9), &mut cx).unwrap();
    assert_eq!(cx.vector_len(v), 4);
    for k in 0..4 {
        assert_eq!(cx.vector_get(v, k).as_int().unwrap(), 9);
    }
}

#[test]
fn vector_copies_its_arguments() {
    let mut cx = Context::new();
    let v = vector(&[LispObj::from_int(7), LispObj::t()], &mut cx).unwrap();
    assert_eq!(cx.vector_len(v), 2);
    assert_eq!(cx.vector_get(v, 0).as_int().unwrap(), 7);
    assert!(cx.vector_get(v, 1).is_true());
}

#[test]
fn record_starts_with_its_type_tag() {
    let mut cx = Context::new();
    let ty = cx.intern("point").unwrap();
    let r = record(ty, &[LispObj::from_int(1), LispObj::from_int(2)], &mut cx).unwrap();
    assert!(r.is_record());
    match cx.data_at(r.ref_idx()) {
        CellData::Record(slots) => {
            assert_eq!(slots.len(), 3);
            assert_eq!(slots[0], ty);
            assert_eq!(slots[1].as_int().unwrap(), 1);
            assert_eq!(slots[2].as_int().unwrap(), 2);
        }
        _ => panic!("record cell expected"),
    }
}

#[test]
fn purecopy_is_the_identity() {
    let v = LispObj::from_int(42);
    assert_eq!(purecopy(v), v);
    let mut cx = Context::new();
    let s = cx.add_str(String::from("pure")).unwrap();
    // the same word: identical by reference and by value
    assert_eq!(purecopy(s), s);
    assert_eq!(purecopy(s).ref_idx(), s.ref_idx());
}

#[test]
fn byte_code_decodes_the_arglist_word() {
    let code: Vec<u8> = vec![0x00];
    let constants: Vec<LispObj> = vec![LispObj::nil(), LispObj::t()];
    let f = make_byte_code(0x0082, &code, &constants, 0, None, None, &[]);
    assert_eq!(f.required_args, 2);
    assert_eq!(f.optional_args, 0);
    assert!(f.rest_args);
    assert_eq!(f.op_codes, vec![0x00]);
    assert_eq!(f.constants.len(), 2);
    assert!(f.constants[0].is_nil());
    assert!(f.constants[1].is_true());

    let g = make_byte_code(0x0307, &code, &constants, 0, None, None, &[]);
    assert_eq!(g.required_args, 7);
    assert_eq!(g.optional_args, 3);
    assert!(!g.rest_args);
}

#[test]
fn closure_replaces_the_leading_constants() {
    let a = LispObj::from_int(101);
    let b = LispObj::from_int(102);
    let c = LispObj::from_int(103);
    let x = LispObj::from_int(201);
    let y = LispObj::from_int(202);
    let code: Vec<u8> = vec![1, 2, 3];
    let consts: Vec<LispObj> = vec![a, b, c];
    let proto = make_byte_code(0x0001, &code, &consts, 0, None, None, &[]);
    let f = make_closure(&proto, &[x, y]).unwrap();
    assert_eq!(f.constants, vec![x, y, c]);
    assert_eq!(f.op_codes, proto.op_codes);
    assert_eq!(f.required_args, proto.required_args);
}

#[test]
fn closure_overflow_is_an_error() {
    let code: Vec<u8> = vec![0];
    let consts: Vec<LispObj> = vec![LispObj::nil(); 8];
    let proto = make_byte_code(0, &code, &consts, 0, None, None, &[]);
    let six = [LispObj::from_int(0); 6];
    assert!(matches!(
        make_closure(&proto, &six),
        Err(Error::ClosureOverflow)
    ));
    // more vars than the prototype has constants
    let short_consts: Vec<LispObj> = vec![LispObj::nil()];
    let small = make_byte_code(0, &code, &short_consts, 0, None, None, &[]);
    let two = [LispObj::from_int(0); 2];
    assert!(matches!(
        make_closure(&small, &two),
        Err(Error::ClosureOverflow)
    ));
    // five vars into five constants is fine
    let five_consts: Vec<LispObj> = vec![LispObj::nil(); 5];
    let ok_proto = make_byte_code(0, &code, &five_consts, 0, None, None, &[]);
    let five = [LispObj::from_int(0); 5];
    assert!(make_closure(&ok_proto, &five).is_ok());
}

#[test]
fn allocation_fails_when_the_heap_is_full() {
    let mut cx = Context::with_limits(2, 1000);
    let a = cx.add_str(String::from("a")).unwrap();
    let _g = cx.push_root(a);
    let b = cx.add_str(String::from("b")).unwrap();
    let _g2 = cx.push_root(b);
    assert_eq!(cx.add_str(String::from("c")), Err(Error::OutOfMemory));
    // a list that does not fit is refused before any cell is written
    let items = [LispObj::from_int(1), LispObj::from_int(2)];
    assert_eq!(list(&items, &mut cx), Err(Error::OutOfMemory));
}
