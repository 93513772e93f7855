//! Facts about the grammar of `parser::parse_line`, proved over the spec
//! functions that `parser::command` is verified against.
use vstd::prelude::*;
use crate::parser::{
    CharClass, CommandView, ErrorKind, Fail, ValueView, digits_value, err_at, has_word_at,
    in_class, is_alnum, is_digit, is_escapable, is_ident_char, is_ident_start, is_ws, kw_let,
    kw_quit, lemma_run_end_bounds, parse_assignment, parse_line, parse_value, run_end, scan_body,
    skip_ws, ParseError,
};

verus! {

/// A name that the identifier rule reads whole.
pub open spec fn valid_ident(n: Seq<char>) -> bool {
    &&& n.len() > 0
    &&& is_ident_start(n[0])
    &&& forall|k: int| 0 <= k < n.len() ==> is_ident_char(#[trigger] n[k])
}

pub open spec fn all_ws(w: Seq<char>) -> bool {
    forall|k: int| 0 <= k < w.len() ==> is_ws(#[trigger] w[k])
}

pub open spec fn all_zeros(z: Seq<char>) -> bool {
    forall|k: int| 0 <= k < z.len() ==> #[trigger] z[k] == '0'
}

/// A string body made of letters, digits and the escapes `\"`, `\n`, `\\`.
pub open spec fn valid_body(t: Seq<char>) -> bool
    decreases t.len(),
{
    if t.len() == 0 {
        true
    } else if is_alnum(t[0]) {
        valid_body(t.drop_first())
    } else if t[0] == '\\' && t.len() >= 2 && is_escapable(t[1]) {
        valid_body(t.subrange(2, t.len() as int))
    } else {
        false
    }
}

pub open spec fn digit_char(d: nat) -> char {
    if d == 0 {
        '0'
    } else if d == 1 {
        '1'
    } else if d == 2 {
        '2'
    } else if d == 3 {
        '3'
    } else if d == 4 {
        '4'
    } else if d == 5 {
        '5'
    } else if d == 6 {
        '6'
    } else if d == 7 {
        '7'
    } else if d == 8 {
        '8'
    } else {
        '9'
    }
}

/// `v` written in decimal, without leading zeros.
pub open spec fn decimal(v: nat) -> Seq<char>
    decreases v,
{
    if v < 10 {
        seq![digit_char(v)]
    } else {
        decimal(v / 10).push(digit_char(v % 10))
    }
}

/// The line `let <n> = <t>`.
pub open spec fn let_line(n: Seq<char>, t: Seq<char>) -> Seq<char> {
    let_prefix(seq![' '], n, seq![' '], seq![' ']) + t
}

proof fn lemma_run_end_at(s: Seq<char>, i: int, j: int, cls: CharClass)
    requires
        0 <= i <= j <= s.len(),
        forall|k: int| i <= k < j ==> in_class(cls, #[trigger] s[k]),
        j == s.len() || !in_class(cls, s[j]),
    ensures
        run_end(s, i, cls) == j,
    decreases j - i,
{
    if i < j {
        lemma_run_end_at(s, i + 1, j, cls);
    }
}

proof fn lemma_let_line_tail(n: Seq<char>, t: Seq<char>)
    ensures
        let_line(n, t).len() == n.len() + 7 + t.len(),
        forall|m: int|
            0 <= m < t.len() ==> #[trigger] let_line(n, t)[n.len() + 7 + m] == t[m],
{
    lemma_prefix_index(let_prefix(seq![' '], n, seq![' '], seq![' ']), t);
}

/// How `let_line(n, t)` is read up to its value, which starts at `n.len() + 7`.
proof fn lemma_let_line(n: Seq<char>, t: Seq<char>)
    requires
        valid_ident(n),
        t.len() > 0,
        !is_ws(t[0]),
    ensures
        parse_line(let_line(n, t)) == match parse_value(let_line(n, t), (n.len() + 7) as int) {
            Ok((e, v)) => Ok((skip_ws(let_line(n, t), e), CommandView::Assignment(n, v))),
            Err(pe) => Err::<(int, CommandView), Fail>(Fail::Failure(pe)),
        },
{
    let sp = seq![' '];
    assert(all_ws(sp));
    lemma_spaced_assignment(sp, n, sp, sp, t);
}

/// An assignment whose value starts with a minus sign fails, committed,
/// with the position of that sign.
pub proof fn lemma_minus_sign_rejected(n: Seq<char>, t: Seq<char>)
    requires
        valid_ident(n),
        t.len() > 0,
        t[0] == '-',
    ensures
        parse_line(let_line(n, t)) == Err::<(int, CommandView), Fail>(
            Fail::Failure(err_at((n.len() + 7) as int, ErrorKind::InvalidValue)),
        ),
{
    lemma_let_line(n, t);
    let s = let_line(n, t);
    assert(s[(n.len() + 7) as int] == t[0]);
}

proof fn lemma_digits_shift(s: Seq<char>, d: int, u: Seq<char>, k: int)
    requires
        0 <= d,
        0 <= k <= u.len(),
        d + u.len() <= s.len(),
        forall|m: int| 0 <= m < u.len() ==> #[trigger] s[d + m] == u[m],
    ensures
        digits_value(s, d, d + k) == digits_value(u, 0, k),
    decreases k,
{
    if k > 0 {
        lemma_digits_shift(s, d, u, k - 1);
        assert(s[d + (k - 1)] == u[k - 1]);
    }
}

proof fn lemma_zeros_value(s: Seq<char>, j: int)
    requires
        0 <= j <= s.len(),
        forall|k: int| 0 <= k < j ==> #[trigger] s[k] == '0',
    ensures
        digits_value(s, 0, j) == 0,
    decreases j,
{
    if j > 0 {
        lemma_zeros_value(s, j - 1);
    }
}

proof fn lemma_zeros_then(z: Seq<char>, u: Seq<char>, k: int)
    requires
        all_zeros(z),
        0 <= k <= u.len(),
    ensures
        digits_value(z + u, 0, z.len() + k) == digits_value(u, 0, k),
    decreases k,
{
    let s = z + u;
    if k == 0 {
        lemma_zeros_value(s, z.len() as int);
    } else {
        lemma_zeros_then(z, u, k - 1);
        assert(s[z.len() + k - 1] == u[k - 1]);
    }
}

proof fn lemma_digit_char(d: nat)
    requires
        d < 10,
    ensures
        is_digit(digit_char(d)),
        digit_char(d) as nat - '0' as nat == d,
{
}

proof fn lemma_decimal(v: nat)
    ensures
        decimal(v).len() > 0,
        forall|k: int| 0 <= k < decimal(v).len() ==> is_digit(#[trigger] decimal(v)[k]),
        digits_value(decimal(v), 0, decimal(v).len() as int) == v,
    decreases v,
{
    if v >= 10 {
        let p = decimal(v / 10);
        lemma_decimal(v / 10);
        lemma_digit_char(v % 10);
        let s = decimal(v);
        let l = s.len() as int;
        assert(l == p.len() + 1);
        assert forall|m: int| 0 <= m < p.len() implies #[trigger] s[0 + m] == p[m] by {}
        lemma_digits_shift(s, 0, p, p.len() as int);
        assert(s[l - 1] == digit_char(v % 10));
        assert(digits_value(s, 0, l) == digits_value(s, 0, l - 1) * 10 + (s[l - 1] as nat
            - '0' as nat) as nat);
        assert(v == (v / 10) * 10 + v % 10);
        assert forall|k: int| 0 <= k < l implies is_digit(#[trigger] s[k]) by {
            if k < l - 1 {
                assert(s[k] == p[k]);
            }
        }
    } else {
        lemma_digit_char(v);
        let s = decimal(v);
        assert(digits_value(s, 0, 1) == digits_value(s, 0, 0) * 10 + (s[0] as nat
            - '0' as nat) as nat);
    }
}

/// Digits `z + decimal(v)`, `z` zeros, standing at the end of `s` from `d`,
/// read as the number `v`.
proof fn lemma_value_of_digits(s: Seq<char>, d: int, z: Seq<char>, v: u32)
    requires
        all_zeros(z),
        0 <= d,
        d + z.len() + decimal(v as nat).len() == s.len(),
        forall|m: int|
            0 <= m < z.len() + decimal(v as nat).len() ==> #[trigger] s[d + m] == (z + decimal(
                v as nat,
            ))[m],
    ensures
        parse_value(s, d) == Ok::<(int, ValueView), crate::parser::ParseError>(
            (s.len() as int, ValueView::Unsigned(v)),
        ),
{
    let u = decimal(v as nat);
    let t = z + u;
    lemma_decimal(v as nat);
    assert forall|k: int| d <= k < s.len() implies in_class(CharClass::Digit, #[trigger] s[k]) by {
        assert(s[d + (k - d)] == t[k - d]);
        if k - d >= z.len() {
            assert(t[k - d] == u[k - d - z.len()]);
        }
    }
    lemma_run_end_at(s, d, s.len() as int, CharClass::Digit);
    lemma_digits_shift(s, d, t, t.len() as int);
    lemma_zeros_then(z, u, u.len() as int);
}

/// The value of `let_line(n, z + decimal(v))`, `z` being leading zeros.
#[verifier::rlimit(20)]
proof fn lemma_unsigned_line(n: Seq<char>, z: Seq<char>, v: u32)
    requires
        valid_ident(n),
        all_zeros(z),
    ensures
        parse_line(let_line(n, z + decimal(v as nat))) == Ok::<(int, CommandView), Fail>(
            (
                let_line(n, z + decimal(v as nat)).len() as int,
                CommandView::Assignment(n, ValueView::Unsigned(v)),
            ),
        ),
{
    let u = decimal(v as nat);
    let t = z + u;
    lemma_decimal(v as nat);
    assert(!is_ws(t[0])) by {
        if z.len() > 0 {
            assert(t[0] == z[0]);
        } else {
            assert(t[0] == u[0]);
        }
    }
    lemma_let_line(n, t);
    lemma_let_line_tail(n, t);
    let s = let_line(n, t);
    lemma_value_of_digits(s, (n.len() + 7) as int, z, v);
}

/// `let <n> = <v>`, `v` an unsigned 32-bit number written in decimal, reads
/// whole as the assignment of `v` to `n`.
pub proof fn lemma_unsigned_assignment(n: Seq<char>, v: u32)
    requires
        valid_ident(n),
    ensures
        parse_line(let_line(n, decimal(v as nat))) == Ok::<(int, CommandView), Fail>(
            (
                let_line(n, decimal(v as nat)).len() as int,
                CommandView::Assignment(n, ValueView::Unsigned(v)),
            ),
        ),
{
    let e = Seq::<char>::empty();
    lemma_unsigned_line(n, e, v);
    assert(e + decimal(v as nat) =~= decimal(v as nat));
}

/// Leading zeros do not change a number's value: `let <n> = 00<v>` assigns
/// `v` as `let <n> = <v>` does.
pub proof fn lemma_leading_zeros(n: Seq<char>, z: Seq<char>, v: u32)
    requires
        valid_ident(n),
        all_zeros(z),
    ensures
        parse_line(let_line(n, z + decimal(v as nat))) == Ok::<(int, CommandView), Fail>(
            (
                let_line(n, z + decimal(v as nat)).len() as int,
                CommandView::Assignment(n, ValueView::Unsigned(v)),
            ),
        ),
{
    lemma_unsigned_line(n, z, v);
}

proof fn lemma_scan_valid(s: Seq<char>, i: int, u: Seq<char>)
    requires
        valid_body(u),
        0 <= i,
        i + u.len() <= s.len(),
        forall|m: int| 0 <= m < u.len() ==> #[trigger] s[i + m] == u[m],
        i + u.len() == s.len() || s[i + u.len()] == '"',
    ensures
        scan_body(s, i) == Ok::<int, int>(i + u.len()),
    decreases u.len(),
{
    if u.len() > 0 {
        assert(s[i + 0] == u[0]);
        if is_alnum(u[0]) {
            let r = u.drop_first();
            assert forall|m: int| 0 <= m < r.len() implies #[trigger] s[(i + 1) + m] == r[m] by {
                assert(s[i + (m + 1)] == u[m + 1]);
            }
            lemma_scan_valid(s, i + 1, r);
        } else {
            let r = u.subrange(2, u.len() as int);
            assert(s[i + 1] == u[1]);
            assert forall|m: int| 0 <= m < r.len() implies #[trigger] s[(i + 2) + m] == r[m] by {
                assert(s[i + (m + 2)] == u[m + 2]);
            }
            lemma_scan_valid(s, i + 2, r);
        }
    }
}

/// `let <n> = "<u>"`, `u` a body of letters, digits and escapes, reads whole
/// as the assignment of `u`, kept as written, to `n`.
pub proof fn lemma_string_assignment(n: Seq<char>, u: Seq<char>)
    requires
        valid_ident(n),
        valid_body(u),
    ensures
        parse_line(let_line(n, seq!['"'] + u + seq!['"'])) == Ok::<(int, CommandView), Fail>(
            (
                let_line(n, seq!['"'] + u + seq!['"']).len() as int,
                CommandView::Assignment(n, ValueView::Str(u)),
            ),
        ),
{
    let t = seq!['"'] + u + seq!['"'];
    assert(t[0] == '"');
    lemma_let_line(n, t);
    lemma_let_line_tail(n, t);
    let s = let_line(n, t);
    let d = (n.len() + 7) as int;
    assert(s[d + 0] == '"');
    assert forall|m: int| 0 <= m < u.len() implies #[trigger] s[(d + 1) + m] == u[m] by {
        assert(s[d + (m + 1)] == t[m + 1]);
    }
    assert(s[d + 1 + u.len()] == '"') by {
        assert(s[d + (u.len() + 1)] == t[(u.len() + 1) as int]);
    }
    lemma_scan_valid(s, d + 1, u);
    assert(s.subrange(d + 1, d + 1 + u.len()) =~= u);
}

/// `let <n> = "<u>` with no closing quote fails, committed, as an
/// unterminated string at the end of the line; it is never read as a
/// shorter string.
pub proof fn lemma_unterminated_string(n: Seq<char>, u: Seq<char>)
    requires
        valid_ident(n),
        valid_body(u),
    ensures
        parse_line(let_line(n, seq!['"'] + u)) == Err::<(int, CommandView), Fail>(
            Fail::Failure(
                err_at(let_line(n, seq!['"'] + u).len() as int, ErrorKind::UnterminatedString),
            ),
        ),
{
    let t = seq!['"'] + u;
    assert(t[0] == '"');
    lemma_let_line(n, t);
    lemma_let_line_tail(n, t);
    let s = let_line(n, t);
    let d = (n.len() + 7) as int;
    assert(s[d + 0] == '"');
    assert forall|m: int| 0 <= m < u.len() implies #[trigger] s[(d + 1) + m] == u[m] by {
        assert(s[d + (m + 1)] == t[m + 1]);
    }
    lemma_scan_valid(s, d + 1, u);
}

proof fn lemma_ws_prefix(s: Seq<char>, p: int)
    requires
        0 <= p <= s.len(),
        forall|k: int| 0 <= k < p ==> is_ws(#[trigger] s[k]),
        p == s.len() || !is_ws(s[p]),
    ensures
        skip_ws(s, 0) == p,
{
    lemma_run_end_at(s, 0, p, CharClass::Space);
}

/// A line of whitespace alone, the empty line included, is the empty
/// command, read whole.
pub proof fn lemma_blank_line(s: Seq<char>)
    requires
        all_ws(s),
    ensures
        parse_line(s) == Ok::<(int, CommandView), Fail>((s.len() as int, CommandView::Empty)),
{
    lemma_ws_prefix(s, s.len() as int);
}

/// `quit` with any whitespace around it is the quit command, read whole.
pub proof fn lemma_quit(a: Seq<char>, b: Seq<char>)
    requires
        all_ws(a),
        all_ws(b),
    ensures
        parse_line(a + kw_quit() + b) == Ok::<(int, CommandView), Fail>(
            ((a + kw_quit() + b).len() as int, CommandView::Quit),
        ),
{
    let s = a + kw_quit() + b;
    let p = a.len() as int;
    assert(s[p] == 'q' && s[p + 1] == 'u' && s[p + 2] == 'i' && s[p + 3] == 't');
    assert forall|k: int| 0 <= k < p implies is_ws(#[trigger] s[k]) by {
        assert(s[k] == a[k]);
    }
    lemma_ws_prefix(s, p);
    assert(!has_word_at(s, p, kw_let())) by {
        if has_word_at(s, p, kw_let()) {
            assert(s.subrange(p, p + 3)[0] == 'l');
        }
    }
    assert(s.subrange(p, p + 4) =~= kw_quit());
    assert forall|k: int| p + 4 <= k < s.len() implies in_class(CharClass::Space, #[trigger] s[k]) by {
        assert(s[k] == b[k - p - 4]);
    }
    lemma_run_end_at(s, p + 4, s.len() as int, CharClass::Space);
}

/// `quit` followed, without whitespace between, by anything else is not the
/// quit command: the line is unrecognized, at the `q`.
pub proof fn lemma_quit_needs_an_end(a: Seq<char>, c: char, r: Seq<char>)
    requires
        all_ws(a),
        !is_ws(c),
    ensures
        parse_line(a + kw_quit() + seq![c] + r) == Err::<(int, CommandView), Fail>(
            Fail::Error(err_at(a.len() as int, ErrorKind::UnrecognizedCommand)),
        ),
{
    let s = a + kw_quit() + seq![c] + r;
    let p = a.len() as int;
    assert(s[p] == 'q' && s[p + 4] == c);
    assert forall|k: int| 0 <= k < p implies is_ws(#[trigger] s[k]) by {
        assert(s[k] == a[k]);
    }
    lemma_ws_prefix(s, p);
    assert(!has_word_at(s, p, kw_let())) by {
        if has_word_at(s, p, kw_let()) {
            assert(s.subrange(p, p + 3)[0] == 'l');
        }
    }
    assert(skip_ws(s, p + 4) == p + 4);
}

/// `pe` with its position moved by `d`.
pub open spec fn shift_err(pe: ParseError, d: int) -> ParseError {
    ParseError { pos: (pe.pos + d) as usize, kind: pe.kind }
}

pub open spec fn shift_fail(f: Fail, d: int) -> Fail {
    match f {
        Fail::Error(pe) => Fail::Error(shift_err(pe, d)),
        Fail::Failure(pe) => Fail::Failure(shift_err(pe, d)),
    }
}

/// A line's outcome with every position in it moved by `d`.
pub open spec fn shift_line(r: Result<(int, CommandView), Fail>, d: int) -> Result<
    (int, CommandView),
    Fail,
> {
    match r {
        Ok((e, c)) => Ok((e + d, c)),
        Err(f) => Err(shift_fail(f, d)),
    }
}

proof fn lemma_shift_run(p: Seq<char>, t: Seq<char>, i: int, cls: CharClass)
    requires
        0 <= i <= t.len(),
    ensures
        run_end(p + t, p.len() + i, cls) == p.len() + run_end(t, i, cls),
    decreases t.len() - i,
{
    if i < t.len() {
        assert((p + t)[p.len() + i] == t[i]);
        if in_class(cls, t[i]) {
            lemma_shift_run(p, t, i + 1, cls);
        }
    }
}

proof fn lemma_shift_digits(p: Seq<char>, t: Seq<char>, i: int, j: int)
    requires
        0 <= i <= j <= t.len(),
    ensures
        digits_value(p + t, p.len() + i, p.len() + j) == digits_value(t, i, j),
    decreases j - i,
{
    if i < j {
        lemma_shift_digits(p, t, i, j - 1);
        assert((p + t)[p.len() + j - 1] == t[j - 1]);
    }
}

proof fn lemma_scan_bounds(t: Seq<char>, i: int)
    requires
        0 <= i <= t.len(),
    ensures
        match scan_body(t, i) {
            Ok(e) => i <= e <= t.len(),
            Err(b) => i < b < t.len(),
        },
    decreases t.len() - i,
{
    if i < t.len() {
        if is_alnum(t[i]) {
            lemma_scan_bounds(t, i + 1);
        } else if t[i] == '\\' && i + 1 < t.len() && is_escapable(t[i + 1]) {
            lemma_scan_bounds(t, i + 2);
        }
    }
}

proof fn lemma_shift_scan(p: Seq<char>, t: Seq<char>, i: int)
    requires
        0 <= i <= t.len(),
    ensures
        scan_body(p + t, p.len() + i) == match scan_body(t, i) {
            Ok(e) => Ok::<int, int>(e + p.len()),
            Err(b) => Err::<int, int>(b + p.len()),
        },
    decreases t.len() - i,
{
    if i < t.len() {
        assert((p + t)[p.len() + i] == t[i]);
        if i + 1 < t.len() {
            assert((p + t)[p.len() + i + 1] == t[i + 1]);
        }
        if is_alnum(t[i]) {
            lemma_shift_scan(p, t, i + 1);
        } else if t[i] == '\\' && i + 1 < t.len() && is_escapable(t[i + 1]) {
            lemma_shift_scan(p, t, i + 2);
        }
    }
}

proof fn lemma_shift_value(p: Seq<char>, t: Seq<char>, i: int)
    requires
        0 <= i <= t.len(),
        p.len() + t.len() <= usize::MAX,
    ensures
        parse_value(p + t, p.len() + i) == match parse_value(t, i) {
            Ok((e, v)) => Ok::<(int, ValueView), ParseError>((e + p.len(), v)),
            Err(pe) => Err::<(int, ValueView), ParseError>(shift_err(pe, p.len() as int)),
        },
        parse_value(t, i) is Ok ==> i <= parse_value(t, i)->Ok_0.0 <= t.len(),
{
    let s = p + t;
    let l = p.len() as int;
    lemma_shift_run(p, t, i, CharClass::Digit);
    lemma_run_end_bounds(t, i, CharClass::Digit);
    let j = run_end(t, i, CharClass::Digit);
    if j > i {
        lemma_shift_digits(p, t, i, j);
    } else if i < t.len() && t[i] == '"' {
        assert(s[l + i] == t[i]);
        lemma_shift_scan(p, t, i + 1);
        lemma_scan_bounds(t, i + 1);
        match scan_body(t, i + 1) {
            Ok(e) => {
                if e < t.len() {
                    assert(s[l + e] == t[e]);
                    assert(s.subrange(l + i + 1, l + e) =~= t.subrange(i + 1, e));
                }
            },
            Err(b) => {},
        }
    } else if i < t.len() {
        assert(s[l + i] == t[i]);
    }
}

proof fn lemma_shift_assignment(p: Seq<char>, t: Seq<char>, i: int)
    requires
        0 <= i <= t.len(),
        p.len() + t.len() <= usize::MAX,
    ensures
        parse_assignment(p + t, p.len() + i) == match parse_assignment(t, i) {
            Ok((e, n, v)) => Ok::<(int, Seq<char>, ValueView), Fail>((e + p.len(), n, v)),
            Err(f) => Err::<(int, Seq<char>, ValueView), Fail>(shift_fail(f, p.len() as int)),
        },
        parse_assignment(t, i) is Ok ==> 0 <= parse_assignment(t, i)->Ok_0.0 <= t.len(),
{
    let s = p + t;
    let l = p.len() as int;
    lemma_shift_run(p, t, i, CharClass::Space);
    lemma_run_end_bounds(t, i, CharClass::Space);
    let a = skip_ws(t, i);
    if a < t.len() {
        assert(s[l + a] == t[a]);
    }
    if a < t.len() && is_ident_start(t[a]) {
        lemma_shift_run(p, t, a + 1, CharClass::Word);
        lemma_run_end_bounds(t, a + 1, CharClass::Word);
        let b = run_end(t, a + 1, CharClass::Word);
        lemma_shift_run(p, t, b, CharClass::Space);
        lemma_run_end_bounds(t, b, CharClass::Space);
        let c = skip_ws(t, b);
        if c < t.len() {
            assert(s[l + c] == t[c]);
        }
        if c < t.len() && t[c] == '=' {
            lemma_shift_run(p, t, c + 1, CharClass::Space);
            lemma_run_end_bounds(t, c + 1, CharClass::Space);
            lemma_shift_value(p, t, skip_ws(t, c + 1));
            assert(s.subrange(l + a, l + b) =~= t.subrange(a, b));
        }
    }
}

/// Whitespace before a line changes nothing but the positions, which move
/// by its length.
#[verifier::rlimit(20)]
pub proof fn lemma_leading_ws(w: Seq<char>, s: Seq<char>)
    requires
        all_ws(w),
        w.len() + s.len() <= usize::MAX,
    ensures
        parse_line(w + s) == shift_line(parse_line(s), w.len() as int),
{
    let ws = w + s;
    let l = w.len() as int;
    lemma_shift_run(w, s, 0, CharClass::Space);
    lemma_run_end_bounds(s, 0, CharClass::Space);
    let p = skip_ws(s, 0);
    assert forall|k: int| 0 <= k < l + p implies in_class(CharClass::Space, #[trigger] ws[k]) by {
        if k < l {
            assert(ws[k] == w[k]);
        } else {
            assert(ws[k] == s[k - l]);
        }
    }
    if p < s.len() {
        assert(ws[l + p] == s[p]);
    }
    lemma_run_end_at(ws, 0, l + p, CharClass::Space);
    if p + 3 <= s.len() {
        assert(ws.subrange(l + p, l + p + 3) =~= s.subrange(p, p + 3));
    }
    if p + 4 <= s.len() {
        assert(ws.subrange(l + p, l + p + 4) =~= s.subrange(p, p + 4));
        lemma_shift_run(w, s, p + 4, CharClass::Space);
    }
    if has_word_at(s, p, kw_let()) {
        lemma_shift_assignment(w, s, p + 3);
        match parse_assignment(s, p + 3) {
            Ok((e, n, v)) => {
                lemma_shift_run(w, s, e, CharClass::Space);
            },
            Err(f) => {},
        }
    }
}

proof fn lemma_extend_run(s: Seq<char>, b: Seq<char>, i: int, cls: CharClass)
    requires
        all_ws(b),
        0 <= i <= s.len(),
    ensures
        run_end(s, i, cls) < s.len() ==> run_end(s + b, i, cls) == run_end(s, i, cls),
        run_end(s, i, cls) == s.len() && cls is Space ==> run_end(s + b, i, cls) == s.len()
            + b.len(),
        run_end(s, i, cls) == s.len() && !(cls is Space) ==> run_end(s + b, i, cls) == s.len(),
    decreases s.len() - i,
{
    let sb = s + b;
    if i < s.len() {
        assert(sb[i] == s[i]);
        if in_class(cls, s[i]) {
            lemma_extend_run(s, b, i + 1, cls);
        }
    } else {
        assert forall|k: int| s.len() <= k < sb.len() implies is_ws(#[trigger] sb[k]) by {
            assert(sb[k] == b[k - s.len()]);
        }
        if cls is Space {
            assert forall|k: int| s.len() <= k < sb.len() implies in_class(
                cls,
                #[trigger] sb[k],
            ) by {
                assert(is_ws(sb[k]));
            }
            lemma_run_end_at(sb, i, sb.len() as int, cls);
        } else if b.len() > 0 {
            assert(is_ws(sb[i]));
        }
    }
}

proof fn lemma_extend_digits(s: Seq<char>, b: Seq<char>, i: int, j: int)
    requires
        0 <= i <= j <= s.len(),
    ensures
        digits_value(s + b, i, j) == digits_value(s, i, j),
    decreases j - i,
{
    if i < j {
        lemma_extend_digits(s, b, i, j - 1);
        assert((s + b)[j - 1] == s[j - 1]);
    }
}

proof fn lemma_extend_scan(s: Seq<char>, b: Seq<char>, i: int)
    requires
        0 <= i <= s.len(),
        scan_body(s, i) matches Ok(e) && e < s.len() && s[e] == '"',
    ensures
        scan_body(s + b, i) == scan_body(s, i),
    decreases s.len() - i,
{
    let sb = s + b;
    if i < s.len() {
        assert(sb[i] == s[i]);
        if i + 1 < s.len() {
            assert(sb[i + 1] == s[i + 1]);
        }
        if is_alnum(s[i]) {
            lemma_extend_scan(s, b, i + 1);
        } else if s[i] == '\\' && i + 1 < s.len() && is_escapable(s[i + 1]) {
            lemma_extend_scan(s, b, i + 2);
        }
    }
}

proof fn lemma_extend_value(s: Seq<char>, b: Seq<char>, i: int)
    requires
        all_ws(b),
        0 <= i <= s.len(),
        parse_value(s, i) is Ok,
    ensures
        parse_value(s + b, i) == parse_value(s, i),
        i <= parse_value(s, i)->Ok_0.0 <= s.len(),
{
    let sb = s + b;
    lemma_extend_run(s, b, i, CharClass::Digit);
    lemma_run_end_bounds(s, i, CharClass::Digit);
    let j = run_end(s, i, CharClass::Digit);
    if j > i {
        lemma_extend_digits(s, b, i, j);
    } else {
        assert(sb[i] == s[i]);
        lemma_scan_bounds(s, i + 1);
        lemma_extend_scan(s, b, i + 1);
        let e = scan_body(s, i + 1)->Ok_0;
        assert(sb[e] == s[e]);
        assert(sb.subrange(i + 1, e) =~= s.subrange(i + 1, e));
    }
}

proof fn lemma_extend_assignment(s: Seq<char>, b: Seq<char>, i: int)
    requires
        all_ws(b),
        0 <= i <= s.len(),
        parse_assignment(s, i) is Ok,
    ensures
        parse_assignment(s + b, i) == parse_assignment(s, i),
        0 <= parse_assignment(s, i)->Ok_0.0 <= s.len(),
{
    let sb = s + b;
    lemma_extend_run(s, b, i, CharClass::Space);
    lemma_run_end_bounds(s, i, CharClass::Space);
    let a = skip_ws(s, i);
    assert(sb[a] == s[a]);
    lemma_extend_run(s, b, a + 1, CharClass::Word);
    lemma_run_end_bounds(s, a + 1, CharClass::Word);
    let w = run_end(s, a + 1, CharClass::Word);
    lemma_extend_run(s, b, w, CharClass::Space);
    lemma_run_end_bounds(s, w, CharClass::Space);
    let c = skip_ws(s, w);
    assert(sb[c] == s[c]);
    lemma_extend_run(s, b, c + 1, CharClass::Space);
    lemma_run_end_bounds(s, c + 1, CharClass::Space);
    let d = skip_ws(s, c + 1);
    if d == s.len() {
        assert(run_end(s, d, CharClass::Digit) == d);
        assert(parse_value(s, d) is Err);
    }
    lemma_extend_value(s, b, d);
    lemma_run_end_bounds(s, d, CharClass::Digit);
    assert(sb.subrange(a, w) =~= s.subrange(a, w));
}

/// Whitespace after a line that parses changes neither the command nor what
/// is left unread, except that a fully read line stays fully read.
#[verifier::rlimit(20)]
pub proof fn lemma_trailing_ws(s: Seq<char>, b: Seq<char>)
    requires
        all_ws(b),
        parse_line(s) is Ok,
    ensures
        parse_line(s + b) == Ok::<(int, CommandView), Fail>(
            (
                if parse_line(s)->Ok_0.0 == s.len() {
                    (s.len() + b.len()) as int
                } else {
                    parse_line(s)->Ok_0.0
                },
                parse_line(s)->Ok_0.1,
            ),
        ),
{
    let sb = s + b;
    lemma_extend_run(s, b, 0, CharClass::Space);
    lemma_run_end_bounds(s, 0, CharClass::Space);
    let p = skip_ws(s, 0);
    if p == s.len() {
        assert(all_ws(s));
        assert(all_ws(sb)) by {
            assert forall|k: int| 0 <= k < sb.len() implies is_ws(#[trigger] sb[k]) by {
                if k < s.len() {
                    assert(sb[k] == s[k]);
                } else {
                    assert(sb[k] == b[k - s.len()]);
                }
            }
        }
        lemma_blank_line(s);
        lemma_blank_line(sb);
    } else {
        assert(has_word_at(sb, p, kw_let()) == has_word_at(s, p, kw_let())) by {
            if p + 3 <= s.len() {
                assert(sb.subrange(p, p + 3) =~= s.subrange(p, p + 3));
            } else if has_word_at(sb, p, kw_let()) {
                assert(sb.subrange(p, p + 3)[s.len() - p] == sb[s.len() as int]);
                assert(sb[s.len() as int] == b[0]);
            }
        }
        if has_word_at(s, p, kw_let()) {
            lemma_extend_assignment(s, b, p + 3);
            let e = parse_assignment(s, p + 3)->Ok_0.0;
            lemma_extend_run(s, b, e, CharClass::Space);
            lemma_run_end_bounds(s, e, CharClass::Space);
        } else {
            assert(has_word_at(s, p, kw_quit()));
            assert(sb.subrange(p, p + 4) =~= s.subrange(p, p + 4));
            lemma_extend_run(s, b, p + 4, CharClass::Space);
        }
    }
}

/// `let`, whitespace `w0`, the name `n`, whitespace `w1`, `=`, whitespace
/// `w2`: all of an assignment line before its value.
pub open spec fn let_prefix(w0: Seq<char>, n: Seq<char>, w1: Seq<char>, w2: Seq<char>) -> Seq<
    char,
> {
    kw_let() + w0 + n + w1 + seq!['='] + w2
}

/// What a line `let <n> = <t>` gives, with positions counted from the start
/// of `t`.
pub open spec fn assignment_outcome(n: Seq<char>, t: Seq<char>) -> Result<
    (int, CommandView),
    Fail,
> {
    match parse_value(t, 0) {
        Ok((e, v)) => Ok((skip_ws(t, e), CommandView::Assignment(n, v))),
        Err(pe) => Err(Fail::Failure(pe)),
    }
}

proof fn lemma_let_prefix_indices(w0: Seq<char>, n: Seq<char>, w1: Seq<char>, w2: Seq<char>)
    ensures
        ({
            let s = let_prefix(w0, n, w1, w2);
            let a = 3 + w0.len() as int;
            let b = a + n.len() as int;
            let c = b + w1.len() as int;
            &&& s.len() == c + 1 + w2.len()
            &&& s[0] == 'l' && s[1] == 'e' && s[2] == 't'
            &&& forall|k: int| 0 <= k < w0.len() ==> #[trigger] s[3 + k] == w0[k]
            &&& forall|k: int| 0 <= k < n.len() ==> #[trigger] s[a + k] == n[k]
            &&& forall|k: int| 0 <= k < w1.len() ==> #[trigger] s[b + k] == w1[k]
            &&& s[c] == '='
            &&& forall|k: int| 0 <= k < w2.len() ==> #[trigger] s[c + 1 + k] == w2[k]
            &&& s.subrange(a, b) =~= n
            &&& s.subrange(0, 3) =~= kw_let()
        }),
{
}

proof fn lemma_prefix_index(p: Seq<char>, t: Seq<char>)
    ensures
        forall|k: int| 0 <= k < p.len() ==> #[trigger] (p + t)[k] == p[k],
        forall|k: int| 0 <= k < t.len() ==> #[trigger] (p + t)[p.len() + k] == t[k],
        (p + t).subrange(0, p.len() as int) =~= p,
{
}

#[verifier::rlimit(20)]
proof fn lemma_spaced_assignment(
    w0: Seq<char>,
    n: Seq<char>,
    w1: Seq<char>,
    w2: Seq<char>,
    t: Seq<char>,
)
    requires
        all_ws(w0),
        all_ws(w1),
        all_ws(w2),
        valid_ident(n),
        t.len() == 0 || !is_ws(t[0]),
    ensures
        ({
            let s = let_prefix(w0, n, w1, w2) + t;
            &&& skip_ws(s, 0) == 0
            &&& has_word_at(s, 0, kw_let())
            &&& parse_assignment(s, 3) == match parse_value(
                s,
                let_prefix(w0, n, w1, w2).len() as int,
            ) {
                Ok((e, v)) => Ok::<(int, Seq<char>, ValueView), Fail>((e, n, v)),
                Err(pe) => Err::<(int, Seq<char>, ValueView), Fail>(Fail::Failure(pe)),
            }
        }),
{
    let pre = let_prefix(w0, n, w1, w2);
    let s = pre + t;
    let a = 3 + w0.len() as int;
    let b = a + n.len() as int;
    let c = b + w1.len() as int;
    let d = pre.len() as int;
    lemma_let_prefix_indices(w0, n, w1, w2);
    lemma_prefix_index(pre, t);
    assert(s[0] == 'l');
    assert(s.subrange(0, 3) =~= kw_let()) by {
        assert(s.subrange(0, 3) =~= pre.subrange(0, 3));
    }
    assert(s[a] == n[0]) by {
        assert(pre[a + 0] == n[0]);
    }
    assert forall|k: int| 3 <= k < a implies in_class(CharClass::Space, #[trigger] s[k]) by {
        assert(pre[3 + (k - 3)] == w0[k - 3]);
    }
    lemma_run_end_at(s, 3, a, CharClass::Space);
    assert forall|k: int| a + 1 <= k < b implies in_class(CharClass::Word, #[trigger] s[k]) by {
        assert(pre[a + (k - a)] == n[k - a]);
    }
    assert(s[b] == '=' || is_ws(s[b])) by {
        if w1.len() > 0 {
            assert(pre[b + 0] == w1[0]);
        }
    }
    lemma_run_end_at(s, a + 1, b, CharClass::Word);
    assert forall|k: int| b <= k < c implies in_class(CharClass::Space, #[trigger] s[k]) by {
        assert(pre[b + (k - b)] == w1[k - b]);
    }
    lemma_run_end_at(s, b, c, CharClass::Space);
    assert forall|k: int| c + 1 <= k < d implies in_class(CharClass::Space, #[trigger] s[k]) by {
        assert(pre[c + 1 + (k - c - 1)] == w2[k - c - 1]);
    }
    if t.len() > 0 {
        assert(s[d + 0] == t[0]);
    }
    lemma_run_end_at(s, c + 1, d, CharClass::Space);
    assert(s.subrange(a, b) =~= n) by {
        assert(s.subrange(a, b) =~= pre.subrange(a, b));
    }
}

/// The spacing between `let`, the name, `=` and the value changes nothing
/// but the positions: the outcome is that of the name and the value alone,
/// moved to where the value starts.
#[verifier::rlimit(20)]
pub proof fn lemma_spacing_in_assignment(
    w0: Seq<char>,
    n: Seq<char>,
    w1: Seq<char>,
    w2: Seq<char>,
    t: Seq<char>,
)
    requires
        all_ws(w0),
        all_ws(w1),
        all_ws(w2),
        valid_ident(n),
        t.len() == 0 || !is_ws(t[0]),
        let_prefix(w0, n, w1, w2).len() + t.len() <= usize::MAX,
    ensures
        parse_line(let_prefix(w0, n, w1, w2) + t) == shift_line(
            assignment_outcome(n, t),
            let_prefix(w0, n, w1, w2).len() as int,
        ),
{
    let pre = let_prefix(w0, n, w1, w2);
    let s = pre + t;
    let d = pre.len() as int;
    lemma_spaced_assignment(w0, n, w1, w2, t);
    lemma_shift_value(pre, t, 0);
    assert(d + 0 == d);
    match parse_value(t, 0) {
        Ok((e, v)) => {
            lemma_shift_run(pre, t, e, CharClass::Space);
            assert(parse_assignment(s, 3) == Ok::<(int, Seq<char>, ValueView), Fail>(
                (e + d, n, v),
            ));
        },
        Err(pe) => {
            assert(parse_assignment(s, 3) == Err::<(int, Seq<char>, ValueView), Fail>(
                Fail::Failure(shift_err(pe, d)),
            ));
        },
    }
}

} // verus!
