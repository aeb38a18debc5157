use rune::editfns::{format_message, message};
use rune::error::Error;
use rune::heap::Context;
use rune::print::print_obj;
use rune::value::LispObj;

#[test]
fn test_format() {
    let mut cx = Context::new();
    assert_eq!(
        rune::editfns::format(&cx, "%s", &[LispObj::from_int(1)]).unwrap().as_str(),
        "1"
    );
    assert_eq!(
        rune::editfns::format(&cx, "foo-%s", &[LispObj::from_int(2)])
            .unwrap()
            .as_str(),
        "foo-2"
    );
    assert_eq!(
        rune::editfns::format(
            &cx,
            "foo-%s %s",
            &[LispObj::from_int(3), LispObj::from_int(4)]
        )
        .unwrap()
        .as_str(),
        "foo-3 4"
    );
    let sym = cx.intern("function").unwrap();
    assert_eq!(rune::editfns::format(&cx, "%s", &[sym]).unwrap().as_str(), "function");

    assert!(rune::editfns::format(&cx, "%s", &[]).is_err());
    assert!(rune::editfns::format(&cx, "%s", &[LispObj::from_int(1), LispObj::from_int(2)]).is_err());
}

#[test]
fn double_percent_is_a_literal_percent() {
    let cx = Context::new();
    assert_eq!(rune::editfns::format(&cx, "%%", &[]).unwrap().as_str(), "%");
    assert_eq!(rune::editfns::format(&cx, "a%%b", &[]).unwrap().as_str(), "a%b");
}

#[test]
fn empty_format_string() {
    let cx = Context::new();
    assert_eq!(rune::editfns::format(&cx, "", &[]).unwrap().as_str(), "");
}

#[test]
fn too_few_arguments_fail_with_format_arity() {
    let cx = Context::new();
    assert_eq!(rune::editfns::format(&cx, "%s", &[]), Err(Error::FormatArity));
}

#[test]
fn too_many_arguments_fail_with_format_arity() {
    let cx = Context::new();
    let extra = [LispObj::from_int(1), LispObj::from_int(2)];
    assert_eq!(rune::editfns::format(&cx, "%s", &extra), Err(Error::FormatArity));
}

#[test]
fn trailing_percent_fails_with_format_arity() {
    let cx = Context::new();
    assert_eq!(rune::editfns::format(&cx, "abc%", &[]), Err(Error::FormatArity));
}

#[test]
fn escaped_percent_consumes_no_argument() {
    let cx = Context::new();
    assert_eq!(rune::editfns::format(&cx, r"\%s", &[]).unwrap().as_str(), r"\%s");
}

#[test]
fn string_arguments_paste_their_contents() {
    let mut cx = Context::new();
    let s = cx.add_str(String::from("mid")).unwrap();
    assert_eq!(rune::editfns::format(&cx, "a %s b", &[s]).unwrap().as_str(), "a mid b");
    // printed standalone the same string keeps its quotes
    assert_eq!(print_obj(&cx, s).unwrap().as_str(), "\"mid\"");
}

#[test]
fn format_message_replaces_quote_marks() {
    let mut cx = Context::new();
    let s = cx.add_str(String::from("x")).unwrap();
    assert_eq!(
        format_message(&cx, "`%s' done", &[s]).unwrap().as_str(),
        "\"x\" done"
    );
}

#[test]
fn message_returns_the_formatted_text() {
    let cx = Context::new();
    assert_eq!(
        message(&cx, "n=%s", &[LispObj::from_int(8)])
            .unwrap()
            .as_str(),
        "n=8"
    );
}

#[test]
fn printer_covers_every_variant() {
    let mut cx = Context::new();
    assert_eq!(print_obj(&cx, LispObj::nil()).unwrap().as_str(), "nil");
    assert_eq!(print_obj(&cx, LispObj::t()).unwrap().as_str(), "t");
    assert_eq!(print_obj(&cx, LispObj::void()).unwrap().as_str(), "Void");
    assert_eq!(
        print_obj(&cx, LispObj::from_int(-12)).unwrap().as_str(),
        "-12"
    );
    let pair = cx
        .add_cons(rune::object::Cons::new(
            LispObj::from_int(1),
            LispObj::from_int(2),
        ))
        .unwrap();
    assert_eq!(print_obj(&cx, pair).unwrap().as_str(), "(1 . 2)");
    let v = rune::allocators::vector(&[LispObj::from_int(1), LispObj::t()], &mut cx).unwrap();
    assert_eq!(print_obj(&cx, v).unwrap().as_str(), "[1 t]");
    let f = cx.add_float_bits(1.5f64.to_bits()).unwrap();
    // the core does not render float digits
    assert!(print_obj(&cx, f).is_none());
}

#[test]
fn error_messages_follow_the_convention() {
    let e = Error::arg_count(2, 1, "foo");
    assert_eq!(
        e.message().as_str(),
        "Expected 2 argument(s) for `foo', but found 1"
    );
    let cx = Context::new();
    let te = Error::from_object(rune::error::Type::Int, &cx, LispObj::t());
    assert_eq!(te.message().as_str(), "expected Int, found True: t");
}
