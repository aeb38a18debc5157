use rune::heap::{CellData, Context};
use rune::object::Cons;
use rune::value::LispObj;

#[test]
fn indexing() {
    let mut cx = Context::new();
    let g = cx.push_root_vec();

    cx.root_vec_push(&g, LispObj::nil());
    assert_eq!(cx.root_vec_get(&g, 0), LispObj::nil());
    let str1 = cx.add_str(String::from("str1")).unwrap();
    let str2 = cx.add_str(String::from("str2")).unwrap();
    cx.root_vec_push(&g, str1);
    cx.root_vec_push(&g, str2);
    assert_eq!(cx.root_vec_len(&g), 3);
    assert_eq!(cx.root_vec_get(&g, 0), LispObj::nil());
    assert_eq!(cx.root_vec_get(&g, 1), str1);
    assert_eq!(cx.root_vec_get(&g, 2), str2);
    cx.pop_root(g);
}

#[test]
fn rooted_values_survive_collection() {
    let mut cx = Context::new();
    let kept = cx
        .add_cons(Cons::new(LispObj::from_int(1), LispObj::nil()))
        .unwrap();
    let g = cx.push_root(kept);
    let lost = cx
        .add_cons(Cons::new(LispObj::from_int(2), LispObj::nil()))
        .unwrap();
    let lost_idx = lost.ref_idx();
    cx.collect();
    // the rooted cell answers every query as before
    let v = cx.root_value(&g);
    assert_eq!(v, kept);
    assert!(v.is_cons());
    assert_eq!(1, cx.car(v).as_int().unwrap());
    // the unreachable cell was swept
    assert!(matches!(cx.cells[lost_idx].data, CellData::Free));
    cx.pop_root(g);
}

#[test]
fn collection_reuses_swept_cells() {
    let mut cx = Context::new();
    let a = cx
        .add_cons(Cons::new(LispObj::from_int(1), LispObj::nil()))
        .unwrap();
    let a_idx = a.ref_idx();
    cx.collect();
    let live_before = cx.cells.len() - cx.free.len();
    let b = cx
        .add_cons(Cons::new(LispObj::from_int(9), LispObj::nil()))
        .unwrap();
    // the freed slot is handed out again
    assert_eq!(b.ref_idx(), a_idx);
    assert_eq!(cx.cells.len() - cx.free.len(), live_before + 1);
}

#[test]
fn root_set_is_a_stack() {
    let mut cx = Context::new();
    let g1 = cx.push_root(LispObj::from_int(1));
    let g2 = cx.push_root(LispObj::from_int(2));
    assert_eq!(cx.root_value(&g2).as_int().unwrap(), 2);
    cx.set_root(&g2, LispObj::from_int(5));
    assert_eq!(cx.root_value(&g2).as_int().unwrap(), 5);
    cx.pop_root(g2);
    assert_eq!(cx.root_value(&g1).as_int().unwrap(), 1);
    cx.pop_root(g1);
    assert_eq!(cx.roots.len(), 0);
}

#[test]
fn rooted_container_operations() {
    let mut cx = Context::new();
    let g = cx.push_root_vec();
    for k in 0..5i64 {
        cx.root_vec_push(&g, LispObj::from_int(k));
    }
    assert_eq!(cx.root_vec_len(&g), 5);
    let last = cx.root_vec_pop(&g).unwrap();
    assert_eq!(last.as_int().unwrap(), 4);
    let removed = cx.root_vec_swap_remove(&g, 0);
    assert_eq!(removed.as_int().unwrap(), 0);
    assert_eq!(cx.root_vec_get(&g, 0).as_int().unwrap(), 3);
    cx.root_vec_truncate(&g, 1);
    assert_eq!(cx.root_vec_len(&g), 1);
    cx.root_vec_clear(&g);
    assert_eq!(cx.root_vec_len(&g), 0);
    cx.pop_root(g);
}

#[test]
fn drain_empties_the_tail_of_a_rooted_container() {
    let mut cx = Context::new();
    let g = cx.push_root_vec();
    for k in 0..6i64 {
        cx.root_vec_push(&g, LispObj::from_int(k));
    }
    let tail = cx.root_vec_drain(&g, 2);
    assert_eq!(tail.len(), 4);
    for (m, v) in tail.iter().enumerate() {
        assert_eq!(v.as_int().unwrap(), m as i64 + 2);
    }
    assert_eq!(cx.root_vec_len(&g), 2);
    assert_eq!(cx.root_vec_get(&g, 1).as_int().unwrap(), 1);
    cx.pop_root(g);
}

#[test]
fn rooted_map_binds_one_value_per_key() {
    let mut cx = Context::new();
    let g = cx.push_root_map();
    let ka = cx.intern("a").unwrap();
    let kb = cx.intern("b").unwrap();
    assert!(cx.root_map_get(&g, ka).is_none());
    cx.root_map_insert(&g, ka, LispObj::from_int(1));
    cx.root_map_insert(&g, kb, LispObj::from_int(2));
    assert_eq!(cx.root_map_get(&g, ka).unwrap().as_int().unwrap(), 1);
    assert_eq!(cx.root_map_get(&g, kb).unwrap().as_int().unwrap(), 2);
    // overwriting keeps one binding per key
    cx.root_map_insert(&g, ka, LispObj::from_int(9));
    assert_eq!(cx.root_map_get(&g, ka).unwrap().as_int().unwrap(), 9);
    cx.root_map_remove(&g, ka);
    assert!(cx.root_map_get(&g, ka).is_none());
    assert_eq!(cx.root_map_get(&g, kb).unwrap().as_int().unwrap(), 2);
    // the map is a root: its values survive collection
    let s = cx.add_str(String::from("kept")).unwrap();
    cx.root_map_insert(&g, ka, s);
    cx.collect();
    let back = cx.root_map_get(&g, ka).unwrap();
    assert_eq!(cx.get_str(back).as_str(), "kept");
    cx.pop_root(g);
}

#[test]
fn intern_returns_the_same_symbol() {
    let mut cx = Context::new();
    let s1 = cx.intern("foo").unwrap();
    let s2 = cx.intern("foo").unwrap();
    let other = cx.intern("bar").unwrap();
    assert_eq!(s1, s2);
    assert_ne!(s1, other);
    assert_eq!(cx.symbol_name(s1).as_str(), "foo");
    // interned symbols survive a collection without being rooted
    cx.collect();
    let s3 = cx.intern("foo").unwrap();
    assert_eq!(s1, s3);
}

#[test]
fn fresh_symbols_have_fresh_identity() {
    let mut cx = Context::new();
    let interned = cx.intern("gen").unwrap();
    let u1 = rune::allocators::make_symbol("gen", &mut cx).unwrap();
    let g1 = cx.push_root(u1);
    let u2 = rune::allocators::make_symbol("gen", &mut cx).unwrap();
    assert_ne!(u1, u2);
    assert_ne!(u1, interned);
    assert_ne!(u2, interned);
    assert_eq!(cx.symbol_name(u2).as_str(), "gen");
    cx.pop_root(g1);
}

#[test]
fn builtins_are_registered() {
    let mut cx = Context::new();
    cx.register_builtins().unwrap();
    let names = [
        "list",
        "make-closure",
        "make-byte-code",
        "make-vector",
        "vector",
        "record",
        "purecopy",
        "make-symbol",
        "message",
        "format",
        "format-message",
    ];
    for (i, name) in names.iter().enumerate() {
        let sym = cx.intern(name).unwrap();
        let descr = cx.symbol_function(sym);
        assert_eq!(descr.as_int().unwrap(), i as i64);
    }
}

#[test]
fn heap_stays_exact_across_many_collections() {
    // a long chain rooted only at its head, collected on a schedule
    let n: i64 = 1_000_000;
    let mut cx = Context::with_limits(4_000_000, 100_000);
    let g = cx.push_root(LispObj::nil());
    for k in 0..n {
        let head = cx.root_value(&g);
        let new_head = cx.add_cons(Cons::new(LispObj::from_int(k), head)).unwrap();
        cx.set_root(&g, new_head);
        cx.maybe_collect();
    }
    cx.collect();
    let mut v = cx.root_value(&g);
    assert_eq!(cx.car(v).as_int().unwrap(), n - 1);
    let mut count: i64 = 0;
    while v.is_cons() {
        count += 1;
        v = cx.cdr(v);
    }
    assert!(v.is_nil());
    assert_eq!(count, n);
    cx.pop_root(g);
}
