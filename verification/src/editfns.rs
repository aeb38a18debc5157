//! The `format` family.
//!
//! The format string is scanned left to right. `%%` yields one literal
//! `%`; a backslash makes the following character literal; any other `%`
//! followed by one character consumes one argument, whose contents (for
//! a string) or printed form (for anything else) are appended. A `%` at
//! the very end of the string, too few arguments and too many arguments
//! are all arity errors.

use crate::error::Error;
use crate::heap::{cell_data_of, val_ok, vals_ok, wf, CellData, Context};
use crate::print::{print_obj, printed};
use crate::value::{has_tag, LispObj, TAG_LONG_STR};
use vstd::pervasive::unreached;
use vstd::prelude::*;
use vstd::string::StrSliceExecFns;
use vstd::string::StringExecFns;

verus! {

/// What one consumed argument contributes: a string cell its bytes, any
/// other value its printed representation.
pub open spec fn arg_text(cx: Context, v: LispObj) -> Option<Seq<char>> {
    if has_tag(v.bits, TAG_LONG_STR) && val_ok(cx.cells@, v) {
        match cell_data_of(cx.cells@, v) {
            CellData::Str(s) => Some(s@),
            _ => None,
        }
    } else {
        printed(cx, v)
    }
}

pub open spec fn opt_prepend(p: Seq<char>, r: Option<Seq<char>>) -> Option<Seq<char>> {
    match r {
        Some(rest) => Some(p + rest),
        None => None,
    }
}

/// The output of the scan from position `i` with `ai` arguments already
/// consumed; `None` is an arity error.
pub open spec fn format_from(
    cx: Context,
    fmt: Seq<char>,
    args: Seq<LispObj>,
    i: int,
    ai: int,
) -> Option<Seq<char>>
    decreases fmt.len() - i,
{
    if i < 0 || i > fmt.len() {
        None
    } else if i == fmt.len() {
        if ai == args.len() {
            Some(Seq::empty())
        } else {
            None
        }
    } else if fmt[i] == '\\' {
        if i + 1 < fmt.len() {
            opt_prepend(seq![fmt[i], fmt[i + 1]], format_from(cx, fmt, args, i + 2, ai))
        } else {
            opt_prepend(seq![fmt[i]], format_from(cx, fmt, args, i + 1, ai))
        }
    } else if fmt[i] == '%' {
        if i + 1 >= fmt.len() {
            None
        } else if fmt[i + 1] == '%' {
            opt_prepend(seq!['%'], format_from(cx, fmt, args, i + 2, ai))
        } else if !(0 <= ai < args.len()) {
            None
        } else {
            match arg_text(cx, args[ai]) {
                Some(p) => opt_prepend(p, format_from(cx, fmt, args, i + 2, ai + 1)),
                None => None,
            }
        }
    } else {
        opt_prepend(seq![fmt[i]], format_from(cx, fmt, args, i + 1, ai))
    }
}

pub open spec fn format_result(cx: Context, fmt: Seq<char>, args: Seq<LispObj>) -> Option<
    Seq<char>,
> {
    format_from(cx, fmt, args, 0, 0)
}

/// Format `string` with `objects`. Returns `FormatArity` exactly when
/// the `%`-specifiers disagree with the argument count (or the string
/// ends in a bare `%`).
pub fn format(cx: &Context, string: &str, objects: &[LispObj]) -> (r: Result<String, Error>)
    requires
        wf(*cx),
        vals_ok(cx.cells@, objects@),
        forall|k: int|
            0 <= k < objects@.len() ==> arg_text(*cx, #[trigger] objects@[k]) is Some,
    ensures
        match r {
            Ok(s) => format_result(*cx, string@, objects@) == Some(s@),
            Err(e) => {
                &&& e == Error::FormatArity
                &&& format_result(*cx, string@, objects@) is None
            },
        },
{
    let n = string.unicode_len();
    let mut out = String::new();
    let mut i: usize = 0;
    let mut ai: usize = 0;
    while i < n
        invariant
            wf(*cx),
            vals_ok(cx.cells@, objects@),
            forall|k: int|
                0 <= k < objects@.len() ==> arg_text(*cx, #[trigger] objects@[k]) is Some,
            n == string@.len(),
            i <= n,
            ai <= objects@.len(),
            format_result(*cx, string@, objects@) == opt_prepend(
                out@,
                format_from(*cx, string@, objects@, i as int, ai as int),
            ),
        decreases n - i,
    {
        let ghost i0 = i as int;
        let ghost ai0 = ai as int;
        let ghost out0 = out@;
        let c = string.get_char(i);
        if c == '\\' {
            if i + 1 < n {
                let piece = string.substring_char(i, i + 2);
                out.append(piece);
                i = i + 2;
                proof {
                    assert(piece@ =~= seq![string@[i0], string@[i0 + 1]]);
                    let fnext = format_from(*cx, string@, objects@, i as int, ai as int);
                    assert(format_from(*cx, string@, objects@, i0, ai0) == opt_prepend(
                        piece@,
                        fnext,
                    ));
                    lemma_prepend_two(out0, piece@, fnext);
                }
            } else {
                let piece = string.substring_char(i, i + 1);
                out.append(piece);
                i = i + 1;
                proof {
                    assert(piece@ =~= seq![string@[i0]]);
                    let fnext = format_from(*cx, string@, objects@, i as int, ai as int);
                    assert(format_from(*cx, string@, objects@, i0, ai0) == opt_prepend(
                        piece@,
                        fnext,
                    ));
                    lemma_prepend_two(out0, piece@, fnext);
                }
            }
        } else if c == '%' {
            if i + 1 >= n {
                proof {
                    assert(format_from(*cx, string@, objects@, i as int, ai as int) is None);
                }
                return Err(Error::FormatArity);
            }
            let c2 = string.get_char(i + 1);
            if c2 == '%' {
                out.append("%");
                i = i + 2;
                proof {
                    reveal_strlit("%");
                    assert("%"@ =~= seq!['%']);
                    let fnext = format_from(*cx, string@, objects@, i as int, ai as int);
                    assert(format_from(*cx, string@, objects@, i0, ai0) == opt_prepend(
                        seq!['%'],
                        fnext,
                    ));
                    lemma_prepend_two(out0, seq!['%'], fnext);
                }
            } else {
                if ai >= objects.len() {
                    proof {
                        assert(format_from(*cx, string@, objects@, i as int, ai as int) is None);
                    }
                    return Err(Error::FormatArity);
                }
                let arg = objects[ai];
                let piece: String = if arg.bits & 0xFFFF == TAG_LONG_STR as u64 {
                    cx.get_str(arg)
                } else {
                    match print_obj(cx, arg) {
                        Some(s) => s,
                        None => unreached(),
                    }
                };
                out.append(piece.as_str());
                i = i + 2;
                ai = ai + 1;
                proof {
                    assert(Some(piece@) == arg_text(*cx, objects@[ai0]));
                    let fnext = format_from(*cx, string@, objects@, i as int, ai as int);
                    assert(format_from(*cx, string@, objects@, i0, ai0) == opt_prepend(
                        piece@,
                        fnext,
                    ));
                    lemma_prepend_two(out0, piece@, fnext);
                }
            }
        } else {
            let piece = string.substring_char(i, i + 1);
            out.append(piece);
            i = i + 1;
            proof {
                assert(piece@ =~= seq![string@[i0]]);
                let fnext = format_from(*cx, string@, objects@, i as int, ai as int);
                assert(format_from(*cx, string@, objects@, i0, ai0) == opt_prepend(
                    piece@,
                    fnext,
                ));
                lemma_prepend_two(out0, piece@, fnext);
            }
        }
    }
    if ai != objects.len() {
        proof {
            assert(format_from(*cx, string@, objects@, n as int, ai as int) is None);
        }
        return Err(Error::FormatArity);
    }
    proof {
        assert(format_from(*cx, string@, objects@, n as int, ai as int) == Some(
            Seq::<char>::empty(),
        ));
        assert(out@ + Seq::<char>::empty() =~= out@);
    }
    Ok(out)
}

proof fn lemma_prepend_two(a: Seq<char>, b: Seq<char>, r: Option<Seq<char>>)
    ensures
        opt_prepend(a, opt_prepend(b, r)) == opt_prepend(a + b, r),
{
    match r {
        Some(rest) => {
            assert(a + (b + rest) =~= (a + b) + rest);
        },
        None => {},
    }
}

/// The backtick-and-apostrophe replacement of `format-message`.
pub open spec fn quoted_text(s: Seq<char>) -> Seq<char> {
    s.map(
        |i: int, c: char|
            if c == '`' || c == '\'' {
                '"'
            } else {
                c
            },
    )
}

/// `format`, then every ASCII backtick or apostrophe in the result
/// replaced by a double quote.
pub fn format_message(cx: &Context, string: &str, objects: &[LispObj]) -> (r: Result<
    String,
    Error,
>)
    requires
        wf(*cx),
        vals_ok(cx.cells@, objects@),
        forall|k: int|
            0 <= k < objects@.len() ==> arg_text(*cx, #[trigger] objects@[k]) is Some,
    ensures
        match r {
            Ok(s) => format_result(*cx, string@, objects@) matches Some(f) && s@ == quoted_text(f),
            Err(e) => {
                &&& e == Error::FormatArity
                &&& format_result(*cx, string@, objects@) is None
            },
        },
{
    let formatted = match format(cx, string, objects) {
        Ok(s) => s,
        Err(e) => {
            return Err(e);
        },
    };
    let base = formatted.as_str();
    let n = base.unicode_len();
    let mut out = String::new();
    let mut i: usize = 0;
    while i < n
        invariant
            n == base@.len(),
            i <= n,
            out@ == quoted_text(base@.subrange(0, i as int)),
        decreases n - i,
    {
        let c = base.get_char(i);
        if c == '`' || c == '\'' {
            out.append("\"");
            proof {
                reveal_strlit("\"");
            }
        } else {
            let piece = base.substring_char(i, i + 1);
            out.append(piece);
        }
        i = i + 1;
        proof {
            assert(out@ =~= quoted_text(base@.subrange(0, i as int)));
        }
    }
    proof {
        assert(base@.subrange(0, n as int) =~= base@);
    }
    Ok(out)
}

/// The text of the `message` built-in: the formatted string. Writing it
/// to standard output, under the `MESSAGE: ` prefix, is the embedding
/// shell's part.
pub fn message(cx: &Context, format_string: &str, args: &[LispObj]) -> (r: Result<String, Error>)
    requires
        wf(*cx),
        vals_ok(cx.cells@, args@),
        forall|k: int| 0 <= k < args@.len() ==> arg_text(*cx, #[trigger] args@[k]) is Some,
    ensures
        match r {
            Ok(s) => format_result(*cx, format_string@, args@) == Some(s@),
            Err(e) => {
                &&& e == Error::FormatArity
                &&& format_result(*cx, format_string@, args@) is None
            },
        },
{
    format(cx, format_string, args)
}

} // verus!
