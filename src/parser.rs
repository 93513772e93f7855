use vstd::prelude::*;

verus! {

/// A literal that can be assigned to a name.
#[derive(Debug, PartialEq, Eq)]
pub enum Value {
    Str(String),
    Unsigned(u32),
}

/// One parsed input line.
#[derive(Debug, PartialEq, Eq)]
pub enum Command {
    Empty,
    Assignment(String, Value),
    Quit,
}

/// The mathematical form of a [`Value`].
pub enum ValueView {
    Str(Seq<char>),
    Unsigned(u32),
}

/// The mathematical form of a [`Command`].
pub enum CommandView {
    Empty,
    Assignment(Seq<char>, ValueView),
    Quit,
}

impl View for Value {
    type V = ValueView;

    open spec fn view(&self) -> ValueView {
        match self {
            Value::Str(s) => ValueView::Str(s@),
            Value::Unsigned(n) => ValueView::Unsigned(*n),
        }
    }
}

impl View for Command {
    type V = CommandView;

    open spec fn view(&self) -> CommandView {
        match self {
            Command::Empty => CommandView::Empty,
            Command::Assignment(name, v) => CommandView::Assignment(name@, v@),
            Command::Quit => CommandView::Quit,
        }
    }
}

/// Why a parse failed.
#[derive(Clone, Copy, Debug, PartialEq, Eq, Structural)]
pub enum ErrorKind {
    /// The grammar rule tried here does not apply at this position.
    NoMatch,
    /// A backslash inside a quoted string is followed by a character other
    /// than `"`, `n` or `\`.
    MalformedEscape,
    /// A quoted string has no closing quote where its body ends.
    UnterminatedString,
    /// After `=` there is neither an unsigned integer nor a quoted string.
    InvalidValue,
    /// The trimmed line is none of an assignment, `quit` or empty.
    UnrecognizedCommand,
}

/// A failure, with the position (in characters from the start of the line)
/// at which it was found.
#[derive(Clone, Copy, Debug, PartialEq, Eq, Structural)]
pub struct ParseError {
    pub pos: usize,
    pub kind: ErrorKind,
}

/// The outcome of a failed parse: `Error` leaves the caller free to try
/// another rule at the same position, `Failure` ends the whole parse.
#[derive(Clone, Copy, Debug, PartialEq, Eq, Structural)]
pub enum Fail {
    Error(ParseError),
    Failure(ParseError),
}

pub open spec fn is_ws(c: char) -> bool {
    c == ' ' || c == '\t' || c == '\r' || c == '\n'
}

pub open spec fn is_alpha(c: char) -> bool {
    ('a' <= c && c <= 'z') || ('A' <= c && c <= 'Z')
}

pub open spec fn is_digit(c: char) -> bool {
    '0' <= c && c <= '9'
}

pub open spec fn is_alnum(c: char) -> bool {
    is_alpha(c) || is_digit(c)
}

/// A character that may start an identifier.
pub open spec fn is_ident_start(c: char) -> bool {
    is_alpha(c) || c == '_'
}

/// A character that may continue an identifier.
pub open spec fn is_ident_char(c: char) -> bool {
    is_alnum(c) || c == '_'
}

/// A character that may follow a backslash inside a quoted string.
pub open spec fn is_escapable(c: char) -> bool {
    c == '"' || c == 'n' || c == '\\'
}

/// The classes of characters that the scanner reads in runs.
#[derive(Clone, Copy)]
pub enum CharClass {
    Space,
    Word,
    Digit,
}

pub open spec fn in_class(cls: CharClass, c: char) -> bool {
    match cls {
        CharClass::Space => is_ws(c),
        CharClass::Word => is_ident_char(c),
        CharClass::Digit => is_digit(c),
    }
}

/// The end of the longest run of `cls` characters that starts at `i`.
pub open spec fn run_end(s: Seq<char>, i: int, cls: CharClass) -> int
    decreases s.len() - i,
{
    if i < 0 || i >= s.len() || !in_class(cls, s[i]) {
        i
    } else {
        run_end(s, i + 1, cls)
    }
}

/// The first index at or after `i` that holds no whitespace, or the length.
pub open spec fn skip_ws(s: Seq<char>, i: int) -> int {
    run_end(s, i, CharClass::Space)
}

/// The number written in decimal by `s[i..j]`.
pub open spec fn digits_value(s: Seq<char>, i: int, j: int) -> nat
    decreases j - i,
{
    if j <= i {
        0
    } else {
        digits_value(s, i, j - 1) * 10 + (s[j - 1] as nat - '0' as nat) as nat
    }
}

/// Scans a quoted string's body from `i`: `Ok(e)` when it ends at `e`,
/// `Err(b)` when the character at `b`, after a backslash, cannot be escaped.
pub open spec fn scan_body(s: Seq<char>, i: int) -> Result<int, int>
    decreases s.len() - i,
{
    if i < 0 || i >= s.len() {
        Ok(i)
    } else if is_alnum(s[i]) {
        scan_body(s, i + 1)
    } else if s[i] == '\\' && i + 1 < s.len() {
        if is_escapable(s[i + 1]) {
            scan_body(s, i + 2)
        } else {
            Err(i + 1)
        }
    } else {
        Ok(i)
    }
}

pub open spec fn err_at(i: int, kind: ErrorKind) -> ParseError {
    ParseError { pos: i as usize, kind }
}

/// A value at `i`: an unsigned integer if digits stand there, else a quoted
/// string. Gives the end of the value and the value.
pub open spec fn parse_value(s: Seq<char>, i: int) -> Result<(int, ValueView), ParseError> {
    let j = run_end(s, i, CharClass::Digit);
    if j > i {
        if digits_value(s, i, j) <= u32::MAX {
            Ok((j, ValueView::Unsigned(digits_value(s, i, j) as u32)))
        } else {
            Err(err_at(i, ErrorKind::InvalidValue))
        }
    } else if 0 <= i < s.len() && s[i] == '"' {
        match scan_body(s, i + 1) {
            Err(b) => Err(err_at(b, ErrorKind::MalformedEscape)),
            Ok(e) => if e < s.len() && s[e] == '"' {
                Ok((e + 1, ValueView::Str(s.subrange(i + 1, e))))
            } else {
                Err(err_at(e, ErrorKind::UnterminatedString))
            },
        }
    } else {
        Err(err_at(i, ErrorKind::InvalidValue))
    }
}

/// `name = value` from `i`, whitespace allowed before each of the three.
/// Gives the end of the value, the name and the value. Failing before the
/// `=` leaves the caller free to try another rule; after it, not.
pub open spec fn parse_assignment(s: Seq<char>, i: int) -> Result<
    (int, Seq<char>, ValueView),
    Fail,
> {
    let a = skip_ws(s, i);
    if !(0 <= a < s.len() && is_ident_start(s[a])) {
        Err(Fail::Error(err_at(a, ErrorKind::NoMatch)))
    } else {
        let b = run_end(s, a + 1, CharClass::Word);
        let c = skip_ws(s, b);
        if !(c < s.len() && s[c] == '=') {
            Err(Fail::Error(err_at(c, ErrorKind::NoMatch)))
        } else {
            match parse_value(s, skip_ws(s, c + 1)) {
                Ok((e, v)) => Ok((e, s.subrange(a, b), v)),
                Err(pe) => Err(Fail::Failure(pe)),
            }
        }
    }
}

/// `s` holds the word `w` at `p`.
pub open spec fn has_word_at(s: Seq<char>, p: int, w: Seq<char>) -> bool {
    0 <= p && p + w.len() <= s.len() && s.subrange(p, p + w.len()) == w
}

pub open spec fn kw_let() -> Seq<char> {
    seq!['l', 'e', 't']
}

pub open spec fn kw_quit() -> Seq<char> {
    seq!['q', 'u', 'i', 't']
}

/// A whole line: the end of what was read (trailing whitespace included) and
/// the command.
pub open spec fn parse_line(s: Seq<char>) -> Result<(int, CommandView), Fail> {
    let p = skip_ws(s, 0);
    if has_word_at(s, p, kw_let()) {
        match parse_assignment(s, p + 3) {
            Ok((e, n, v)) => Ok((skip_ws(s, e), CommandView::Assignment(n, v))),
            Err(Fail::Error(pe)) => Err(Fail::Failure(pe)),
            Err(Fail::Failure(pe)) => Err(Fail::Failure(pe)),
        }
    } else if has_word_at(s, p, kw_quit()) && skip_ws(s, p + 4) == s.len() {
        Ok((s.len() as int, CommandView::Quit))
    } else if p == s.len() {
        Ok((s.len() as int, CommandView::Empty))
    } else {
        Err(Fail::Error(err_at(p, ErrorKind::UnrecognizedCommand)))
    }
}

fn in_class_exec(cls: CharClass, c: char) -> (r: bool)
    ensures
        r == in_class(cls, c),
{
    match cls {
        CharClass::Space => c == ' ' || c == '\t' || c == '\r' || c == '\n',
        CharClass::Word => ('a' <= c && c <= 'z') || ('A' <= c && c <= 'Z') || ('0' <= c && c
            <= '9') || c == '_',
        CharClass::Digit => '0' <= c && c <= '9',
    }
}

fn run_end_exec(s: &Vec<char>, i: usize, cls: CharClass) -> (r: usize)
    requires
        i <= s@.len(),
    ensures
        r == run_end(s@, i as int, cls),
        i <= r <= s@.len(),
{
    let mut j: usize = i;
    while j < s.len() && in_class_exec(cls, s[j])
        invariant
            i <= j <= s@.len(),
            run_end(s@, j as int, cls) == run_end(s@, i as int, cls),
        decreases s@.len() - j,
    {
        j = j + 1;
    }
    j
}

proof fn lemma_digits_value_grows(s: Seq<char>, i: int, j: int, k: int)
    requires
        i <= j <= k,
    ensures
        digits_value(s, i, j) <= digits_value(s, i, k),
    decreases k - j,
{
    if j < k {
        lemma_digits_value_grows(s, i, j, k - 1);
    }
}

pub(crate) proof fn lemma_run_end_bounds(s: Seq<char>, i: int, cls: CharClass)
    requires
        0 <= i <= s.len(),
    ensures
        i <= run_end(s, i, cls) <= s.len(),
        forall|k: int| i <= k < run_end(s, i, cls) ==> in_class(cls, #[trigger] s[k]),
        run_end(s, i, cls) < s.len() ==> !in_class(cls, s[run_end(s, i, cls)]),
    decreases s.len() - i,
{
    if i < s.len() && in_class(cls, s[i]) {
        lemma_run_end_bounds(s, i + 1, cls);
    }
}

/// Reads the decimal digits from `i` to `j` as a `u32`; `None` when the
/// number does not fit.
fn digits_to_u32(s: &Vec<char>, i: usize, j: usize) -> (r: Option<u32>)
    requires
        i <= j <= s@.len(),
        forall|k: int| i <= k < j ==> is_digit(#[trigger] s@[k]),
    ensures
        match r {
            Some(n) => n == digits_value(s@, i as int, j as int),
            None => digits_value(s@, i as int, j as int) > u32::MAX,
        },
{
    let mut acc: u64 = 0;
    let mut k: usize = i;
    while k < j
        invariant
            i <= k <= j <= s@.len(),
            forall|m: int| i <= m < j ==> is_digit(#[trigger] s@[m]),
            acc == digits_value(s@, i as int, k as int),
            acc <= u32::MAX,
        decreases j - k,
    {
        let d = (s[k] as u32 - '0' as u32) as u64;
        acc = acc * 10 + d;
        k = k + 1;
        if acc > u32::MAX as u64 {
            proof {
                lemma_digits_value_grows(s@, i as int, k as int, j as int);
            }
            return None;
        }
    }
    Some(acc as u32)
}

/// Scans a quoted string's body from `i` (just after the opening quote).
fn parse_str(s: &Vec<char>, i: usize) -> (r: Result<usize, ParseError>)
    requires
        i <= s@.len(),
    ensures
        match (r, scan_body(s@, i as int)) {
            (Ok(e), Ok(e2)) => e == e2 && i <= e <= s@.len(),
            (Err(pe), Err(b)) => pe == err_at(b, ErrorKind::MalformedEscape),
            _ => false,
        },
{
    let mut k: usize = i;
    while k < s.len()
        invariant
            i <= k <= s@.len(),
            scan_body(s@, k as int) == scan_body(s@, i as int),
        decreases s@.len() - k,
    {
        let c = s[k];
        if ('a' <= c && c <= 'z') || ('A' <= c && c <= 'Z') || ('0' <= c && c <= '9') {
            k = k + 1;
        } else if c == '\\' && k + 1 < s.len() {
            let e = s[k + 1];
            if e == '"' || e == 'n' || e == '\\' {
                k = k + 2;
            } else {
                return Err(ParseError { pos: k + 1, kind: ErrorKind::MalformedEscape });
            }
        } else {
            return Ok(k);
        }
    }
    Ok(k)
}

/// A quoted string at `i`, which holds `"`: its end and its body, kept as
/// written.
fn string(line: &str, s: &Vec<char>, i: usize) -> (r: Result<(usize, String), ParseError>)
    requires
        s@ == line@,
        i < s@.len(),
        s@[i as int] == '"',
    ensures
        match (r, parse_value(s@, i as int)) {
            (Ok((e, t)), Ok((e2, v))) => e == e2 && v == ValueView::Str(t@),
            (Err(pe), Err(pe2)) => pe == pe2,
            _ => false,
        },
{
    let n = s.len();
    let e = parse_str(s, i + 1)?;
    if e < n && s[e] == '"' {
        Ok((e + 1, String::from_str(line.substring_char(i + 1, e))))
    } else {
        Err(ParseError { pos: e, kind: ErrorKind::UnterminatedString })
    }
}

/// A value at `i`: an unsigned integer, else a quoted string.
fn value(line: &str, s: &Vec<char>, i: usize) -> (r: Result<(usize, Value), ParseError>)
    requires
        s@ == line@,
        i <= s@.len(),
    ensures
        match (r, parse_value(s@, i as int)) {
            (Ok((e, v)), Ok((e2, v2))) => e == e2 && v@ == v2 && e <= s@.len(),
            (Err(pe), Err(pe2)) => pe == pe2,
            _ => false,
        },
{
    let j = run_end_exec(s, i, CharClass::Digit);
    if j > i {
        proof {
            lemma_run_end_bounds(s@, i as int, CharClass::Digit);
        }
        match digits_to_u32(s, i, j) {
            Some(n) => Ok((j, Value::Unsigned(n))),
            None => Err(ParseError { pos: i, kind: ErrorKind::InvalidValue }),
        }
    } else if i < s.len() && s[i] == '"' {
        let (e, t) = string(line, s, i)?;
        Ok((e, Value::Str(t)))
    } else {
        Err(ParseError { pos: i, kind: ErrorKind::InvalidValue })
    }
}

/// An identifier at `i`: its end, or `None` when no identifier starts there.
fn identifier(s: &Vec<char>, i: usize) -> (r: Option<usize>)
    requires
        i <= s@.len(),
    ensures
        match r {
            Some(b) => i < s@.len() && is_ident_start(s@[i as int]) && b == run_end(
                s@,
                i + 1,
                CharClass::Word,
            ) && i < b <= s@.len(),
            None => !(i < s@.len() && is_ident_start(s@[i as int])),
        },
{
    if i < s.len() && (('a' <= s[i] && s[i] <= 'z') || ('A' <= s[i] && s[i] <= 'Z') || s[i]
        == '_') {
        Some(run_end_exec(s, i + 1, CharClass::Word))
    } else {
        None
    }
}

/// `name = value` from `i`, as `parse_assignment` reads it.
fn assignment(line: &str, s: &Vec<char>, i: usize) -> (r: Result<(usize, String, Value), Fail>)
    requires
        s@ == line@,
        i <= s@.len(),
    ensures
        match (r, parse_assignment(s@, i as int)) {
            (Ok((e, n, v)), Ok((e2, n2, v2))) => e == e2 && n@ == n2 && v@ == v2 && e <= s@.len(),
            (Err(f), Err(f2)) => f == f2,
            _ => false,
        },
{
    let a = run_end_exec(s, i, CharClass::Space);
    let b = match identifier(s, a) {
        Some(b) => b,
        None => {
            return Err(Fail::Error(ParseError { pos: a, kind: ErrorKind::NoMatch }));
        },
    };
    let c = run_end_exec(s, b, CharClass::Space);
    if !(c < s.len() && s[c] == '=') {
        return Err(Fail::Error(ParseError { pos: c, kind: ErrorKind::NoMatch }));
    }
    let d = run_end_exec(s, c + 1, CharClass::Space);
    match value(line, s, d) {
        Ok((e, v)) => Ok((e, String::from_str(line.substring_char(a, b)), v)),
        Err(pe) => Err(Fail::Failure(pe)),
    }
}

/// The empty command at `p`, where only whitespace was before it.
fn empty(s: &Vec<char>, p: usize) -> (r: Result<(usize, Command), Fail>)
    requires
        p <= s@.len(),
    ensures
        match r {
            Ok((e, c)) => p == s@.len() && e == p && c@ == CommandView::Empty,
            Err(f) => p < s@.len() && f == Fail::Error(err_at(p as int, ErrorKind::NoMatch)),
        },
{
    if p == s.len() {
        Ok((p, Command::Empty))
    } else {
        Err(Fail::Error(ParseError { pos: p, kind: ErrorKind::NoMatch }))
    }
}

/// The characters of `line`, in order.
fn chars_of(line: &str) -> (r: Vec<char>)
    ensures
        r@ == line@,
{
    let n = line.unicode_len();
    let mut r: Vec<char> = Vec::new();
    let mut i: usize = 0;
    while i < n
        invariant
            n == line@.len(),
            i <= n,
            r@ == line@.subrange(0, i as int),
        decreases n - i,
    {
        r.push(line.get_char(i));
        i = i + 1;
    }
    r
}

/// Parses one line into a command. On success gives the part of the line
/// left unread (trailing whitespace is read) and the command; on failure,
/// where and why it failed. A line that starts, after whitespace, with `let`
/// is an assignment or a `Failure`; otherwise it is `quit` alone, or empty,
/// or an `Error` of kind `UnrecognizedCommand`.
pub fn command(line: &str) -> (r: Result<(&str, Command), Fail>)
    ensures
        match (r, parse_line(line@)) {
            (Ok((rest, c)), Ok((k, c2))) => 0 <= k <= line@.len() && rest@ == line@.subrange(
                k,
                line@.len() as int,
            ) && c@ == c2,
            (Err(f), Err(f2)) => f == f2,
            _ => false,
        },
{
    let s = chars_of(line);
    let n = s.len();
    let p = run_end_exec(&s, 0, CharClass::Space);
    if n - p >= 3 && s[p] == 'l' && s[p + 1] == 'e' && s[p + 2] == 't' {
        assert(s@.subrange(p as int, p + 3) =~= kw_let());
        match assignment(line, &s, p + 3) {
            Ok((e, name, v)) => {
                let k = run_end_exec(&s, e, CharClass::Space);
                Ok((line.substring_char(k, n), Command::Assignment(name, v)))
            },
            Err(Fail::Error(pe)) => Err(Fail::Failure(pe)),
            Err(Fail::Failure(pe)) => Err(Fail::Failure(pe)),
        }
    } else if n - p >= 4 && s[p] == 'q' && s[p + 1] == 'u' && s[p + 2] == 'i' && s[p + 3] == 't'
        && run_end_exec(&s, p + 4, CharClass::Space) == n {
        assert(s@.subrange(p as int, p + 4) =~= kw_quit());
        Ok((line.substring_char(n, n), Command::Quit))
    } else {
        assert(!has_word_at(s@, p as int, kw_let())) by {
            if has_word_at(s@, p as int, kw_let()) {
                assert(s@.subrange(p as int, p + 3)[0] == 'l');
                assert(s@.subrange(p as int, p + 3)[1] == 'e');
                assert(s@.subrange(p as int, p + 3)[2] == 't');
            }
        }
        assert(!(has_word_at(s@, p as int, kw_quit()) && skip_ws(s@, p + 4) == s@.len())) by {
            if has_word_at(s@, p as int, kw_quit()) {
                assert(s@.subrange(p as int, p + 4)[0] == 'q');
                assert(s@.subrange(p as int, p + 4)[1] == 'u');
                assert(s@.subrange(p as int, p + 4)[2] == 'i');
                assert(s@.subrange(p as int, p + 4)[3] == 't');
            }
        }
        match empty(&s, p) {
            Ok((e, c)) => Ok((line.substring_char(e, n), c)),
            Err(_) => Err(Fail::Error(ParseError { pos: p, kind: ErrorKind::UnrecognizedCommand })),
        }
    }
}

} // verus!
