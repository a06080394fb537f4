use vstd::prelude::*;
use crate::error::{ErrorModel, FloatErrorKind, IntErrorKind, PositionModel};
use crate::tokens::{Delimiter, Operator, Side, TokenModel};

verus! {

/// The characters with Unicode's White_Space property.
pub open spec fn is_white_space(c: char) -> bool {
    let u = c as u32;
    ||| 0x09 <= u <= 0x0D
    ||| u == 0x20
    ||| u == 0x85
    ||| u == 0xA0
    ||| u == 0x1680
    ||| 0x2000 <= u <= 0x200A
    ||| u == 0x2028
    ||| u == 0x2029
    ||| u == 0x202F
    ||| u == 0x205F
    ||| u == 0x3000
}

/// The value of `c` as a digit in any radix up to 36, or 36 if it is no digit.
pub open spec fn digit_value(c: char) -> nat {
    if '0' <= c <= '9' {
        (c as u32 - '0' as u32) as nat
    } else if 'a' <= c <= 'z' {
        (c as u32 - 'a' as u32 + 10) as nat
    } else if 'A' <= c <= 'Z' {
        (c as u32 - 'A' as u32 + 10) as nat
    } else {
        36
    }
}

pub open spec fn is_radix_digit(c: char, radix: nat) -> bool {
    digit_value(c) < radix
}

/// The number that the digits `ds` write in `radix`, most significant first.
pub open spec fn digits_value(ds: Seq<char>, radix: nat) -> nat
    decreases ds.len(),
{
    if ds.len() == 0 {
        0
    } else {
        digits_value(ds.drop_last(), radix) * radix + digit_value(ds.last())
    }
}

/// The index of the first `c` at or after `j`, or the length of `code` if there is none.
pub open spec fn find_char(code: Seq<char>, j: int, c: char) -> int
    decreases code.len() - j,
{
    if j < 0 || j >= code.len() {
        code.len() as int
    } else if code[j] == c {
        j
    } else {
        find_char(code, j + 1, c)
    }
}

/// The index of the `*` of the first `*/` at or after `j`, or the length of `code`
/// if there is none.
pub open spec fn find_close(code: Seq<char>, j: int) -> int
    decreases code.len() - j,
{
    if j < 0 || j + 1 >= code.len() {
        code.len() as int
    } else if code[j] == '*' && code[j + 1] == '/' {
        j
    } else {
        find_close(code, j + 1)
    }
}

/// The radix of a numeric literal that starts at `i`, and the length of its prefix.
pub open spec fn radix_at(code: Seq<char>, i: int) -> (nat, nat) {
    if i + 1 < code.len() && code[i] == '0' && code[i + 1] == 'x' {
        (16, 2)
    } else if i + 1 < code.len() && code[i] == '0' && code[i + 1] == 'o' {
        (8, 2)
    } else if i + 1 < code.len() && code[i] == '0' && code[i + 1] == 'b' {
        (2, 2)
    } else {
        (10, 0)
    }
}

/// Where the digits of a numeric literal, read from `j` on, end, and whether they
/// hold a `.`. A `.` belongs to the literal only if it is the first one and a digit
/// of the radix follows it.
pub open spec fn num_scan(code: Seq<char>, radix: nat, j: int, dot: bool) -> (int, bool)
    decreases code.len() - j,
{
    if j < 0 || j >= code.len() {
        (j, dot)
    } else if is_radix_digit(code[j], radix) {
        num_scan(code, radix, j + 1, dot)
    } else if code[j] == '.' && !dot && j + 1 < code.len() && is_radix_digit(code[j + 1], radix) {
        num_scan(code, radix, j + 1, true)
    } else {
        (j, dot)
    }
}

/// A failure of the scanner, without its position.
pub enum Failure {
    EofBlockComment,
    EofStr,
    EofChar,
    InvalidCharacter(char),
    InvalidLitFloat,
    InvalidLitInt(IntErrorKind),
    InvalidLitChar,
}

/// What one step of the scanner does: skip up to an index, emit a token and go on
/// at an index, or fail.
pub enum Step {
    Skip(int),
    Emit(TokenModel, int),
    Fail(Failure),
}

/// The step of the scanner at a numeric literal that starts at `i`.
pub open spec fn number_step(code: Seq<char>, i: int) -> Step {
    let (radix, prefix) = radix_at(code, i);
    let (end, dot) = num_scan(code, radix, i + prefix, false);
    if dot {
        if radix == 10 {
            Step::Emit(TokenModel::LitFloat(code.subrange(i, end)), end)
        } else {
            Step::Fail(Failure::InvalidLitFloat)
        }
    } else {
        let ds = code.subrange(i + prefix, end);
        if ds.len() == 0 {
            Step::Fail(Failure::InvalidLitInt(IntErrorKind::Empty))
        } else if digits_value(ds, radix) > i64::MAX {
            Step::Fail(Failure::InvalidLitInt(IntErrorKind::PosOverflow))
        } else {
            Step::Emit(TokenModel::LitInt(digits_value(ds, radix) as int), end)
        }
    }
}

pub open spec fn group_of(c: char) -> Option<TokenModel> {
    if c == '(' {
        Some(TokenModel::Group(Delimiter::Parentheses, Side::Left))
    } else if c == ')' {
        Some(TokenModel::Group(Delimiter::Parentheses, Side::Right))
    } else if c == '{' {
        Some(TokenModel::Group(Delimiter::Braces, Side::Left))
    } else if c == '}' {
        Some(TokenModel::Group(Delimiter::Braces, Side::Right))
    } else if c == '[' {
        Some(TokenModel::Group(Delimiter::Brackets, Side::Left))
    } else if c == ']' {
        Some(TokenModel::Group(Delimiter::Brackets, Side::Right))
    } else {
        None
    }
}

/// The step of the scanner at index `i` (`0 <= i < code.len()`): the first rule of the
/// dispatch table that matches the character at `i` and the one after it.
pub open spec fn step(code: Seq<char>, i: int) -> Step {
    let c = code[i];
    let next: Option<char> = if i + 1 < code.len() { Some(code[i + 1]) } else { None };
    if is_white_space(c) {
        Step::Skip(i + 1)
    } else if c == '.' {
        Step::Emit(TokenModel::Dot, i + 1)
    } else if c == ',' {
        Step::Emit(TokenModel::Comma, i + 1)
    } else if c == '+' {
        Step::Emit(TokenModel::Operator(Operator::Add), i + 1)
    } else if c == '-' && next == Some('>') {
        Step::Emit(TokenModel::Arrow, i + 2)
    } else if c == '-' {
        Step::Emit(TokenModel::Operator(Operator::Sub), i + 1)
    } else if c == '*' {
        Step::Emit(TokenModel::Operator(Operator::Mul), i + 1)
    } else if c == '/' && next == Some('/') {
        Step::Skip(find_char(code, i, '\n'))
    } else if c == '/' && next == Some('*') {
        let k = find_close(code, i + 1);
        if k >= code.len() {
            Step::Fail(Failure::EofBlockComment)
        } else {
            Step::Skip(k + 2)
        }
    } else if c == '/' {
        Step::Emit(TokenModel::Operator(Operator::Div), i + 1)
    } else if group_of(c) is Some {
        Step::Emit(group_of(c)->0, i + 1)
    } else if c == '"' {
        let k = find_char(code, i + 1, '"');
        if k >= code.len() {
            Step::Fail(Failure::EofStr)
        } else {
            Step::Emit(TokenModel::LitStr(code.subrange(i + 1, k)), k + 1)
        }
    } else if c == '\'' {
        let k = find_char(code, i + 1, '\'');
        if k >= code.len() {
            Step::Fail(Failure::EofChar)
        } else if k != i + 2 {
            Step::Fail(Failure::InvalidLitChar)
        } else {
            Step::Emit(TokenModel::LitChar(code[i + 1]), i + 3)
        }
    } else if '0' <= c <= '9' {
        number_step(code, i)
    } else {
        Step::Fail(Failure::InvalidCharacter(c))
    }
}

/// The index at which the step at `i` goes on, if it does not fail.
pub open spec fn step_end(s: Step) -> int {
    match s {
        Step::Skip(e) => e,
        Step::Emit(_, e) => e,
        Step::Fail(_) => 0,
    }
}

/// The tokens that the scanner emits from index `i` to the end, or the index and kind
/// of its first failure. Every step that does not fail moves forward within the input
/// (`lemma_step_end`), so the second branch below is never taken.
pub open spec fn scan(code: Seq<char>, i: int) -> Result<Seq<TokenModel>, (int, Failure)>
    decreases code.len() - i,
{
    if i < 0 || i >= code.len() {
        Ok(seq![])
    } else {
        let s = step(code, i);
        if s is Fail {
            Err((i, s->Fail_0))
        } else if step_end(s) <= i || step_end(s) > code.len() {
            Ok(seq![])
        } else if s is Emit {
            match scan(code, step_end(s)) {
                Ok(ts) => Ok(seq![s->Emit_0] + ts),
                Err(e) => Err(e),
            }
        } else {
            scan(code, step_end(s))
        }
    }
}

/// The number of line breaks in `s`.
pub open spec fn newlines(s: Seq<char>) -> nat
    decreases s.len(),
{
    if s.len() == 0 {
        0
    } else {
        newlines(s.drop_last()) + if s.last() == '\n' { 1nat } else { 0nat }
    }
}

/// The index of the first character of the line that holds index `i`.
pub open spec fn line_start(code: Seq<char>, i: int) -> int
    decreases i,
{
    if i <= 0 || i > code.len() {
        0
    } else if code[i - 1] == '\n' {
        i
    } else {
        line_start(code, i - 1)
    }
}

/// The diagnostic position of index `i`: its row, its column and its line.
pub open spec fn position_at(code: Seq<char>, i: int) -> PositionModel {
    let start = line_start(code, i);
    PositionModel {
        file_path: None,
        code_row: code.subrange(start, find_char(code, start, '\n')),
        row: newlines(code.take(i)),
        column: (i - start) as nat,
    }
}

pub open spec fn hint_block_comment() -> Seq<char> {
    "while waiting for the trailing */"@
}

pub open spec fn hint_str() -> Seq<char> {
    "while waiting for the trailing \""@
}

pub open spec fn hint_char() -> Seq<char> {
    "while waiting for the trailing '"@
}

pub open spec fn hint_lit_char() -> Seq<char> {
    "a char has to have exactly one codepoint"@
}

/// The error that a failure at index `i` raises.
pub open spec fn error_at(code: Seq<char>, i: int, f: Failure) -> ErrorModel {
    let p = position_at(code, i);
    match f {
        Failure::EofBlockComment => ErrorModel::UnexpectedEOF(p, hint_block_comment()),
        Failure::EofStr => ErrorModel::UnexpectedEOF(p, hint_str()),
        Failure::EofChar => ErrorModel::UnexpectedEOF(p, hint_char()),
        Failure::InvalidCharacter(c) => ErrorModel::InvalidCharacter(p, c),
        Failure::InvalidLitFloat => ErrorModel::InvalidLitFloat(p, FloatErrorKind::Invalid),
        Failure::InvalidLitInt(k) => ErrorModel::InvalidLitInt(p, k),
        Failure::InvalidLitChar => ErrorModel::InvalidLitChar(p, hint_lit_char()),
    }
}

/// What lexing `code` gives: all its tokens, or the first error.
pub open spec fn lex(code: Seq<char>) -> Result<Seq<TokenModel>, ErrorModel> {
    match scan(code, 0) {
        Ok(ts) => Ok(ts),
        Err((i, f)) => Err(error_at(code, i, f)),
    }
}

} // verus!

verus! {

pub proof fn lemma_find_char(code: Seq<char>, j: int, c: char)
    requires
        0 <= j <= code.len(),
    ensures
        j <= find_char(code, j, c) <= code.len(),
        find_char(code, j, c) < code.len() ==> code[find_char(code, j, c)] == c,
        forall|k: int| j <= k < find_char(code, j, c) ==> code[k] != c,
    decreases code.len() - j,
{
    if j < code.len() && code[j] != c {
        lemma_find_char(code, j + 1, c);
    }
}

pub proof fn lemma_find_close(code: Seq<char>, j: int)
    requires
        0 <= j <= code.len(),
    ensures
        j <= find_close(code, j) <= code.len(),
        find_close(code, j) < code.len() ==> find_close(code, j) + 1 < code.len(),
    decreases code.len() - j,
{
    if j + 1 < code.len() && !(code[j] == '*' && code[j + 1] == '/') {
        lemma_find_close(code, j + 1);
    }
}

pub proof fn lemma_num_scan(code: Seq<char>, radix: nat, j: int, dot: bool)
    requires
        0 <= j <= code.len(),
    ensures
        j <= num_scan(code, radix, j, dot).0 <= code.len(),
        !num_scan(code, radix, j, dot).1 ==> !dot,
        !num_scan(code, radix, j, dot).1 ==> forall|k: int|
            j <= k < num_scan(code, radix, j, dot).0 ==> is_radix_digit(code[k], radix),
    decreases code.len() - j,
{
    if j < code.len() {
        if is_radix_digit(code[j], radix) {
            lemma_num_scan(code, radix, j + 1, dot);
        } else if code[j] == '.' && !dot && j + 1 < code.len() && is_radix_digit(
            code[j + 1],
            radix,
        ) {
            lemma_num_scan(code, radix, j + 1, true);
        }
    }
}

/// A step that does not fail moves forward and stays within the input.
pub proof fn lemma_step_end(code: Seq<char>, i: int)
    requires
        0 <= i < code.len(),
    ensures
        !(step(code, i) is Fail) ==> i < step_end(step(code, i)) <= code.len(),
{
    lemma_find_char(code, i, '\n');
    lemma_find_char(code, i + 1, '"');
    lemma_find_char(code, i + 1, '\'');
    lemma_find_close(code, i + 1);
    let (radix, prefix) = radix_at(code, i);
    lemma_num_scan(code, radix, i + prefix, false);
    if prefix == 0 {
        lemma_num_scan(code, radix, i + 1, false);
    }
}

/// Prefixes `ts` to the tokens of a scan that succeeds.
pub open spec fn prepend(
    ts: Seq<TokenModel>,
    r: Result<Seq<TokenModel>, (int, Failure)>,
) -> Result<Seq<TokenModel>, (int, Failure)> {
    match r {
        Ok(rest) => Ok(ts + rest),
        Err(e) => Err(e),
    }
}

/// One step of the scan at `i`.
pub proof fn lemma_scan_step(code: Seq<char>, i: int)
    requires
        0 <= i < code.len(),
        !(step(code, i) is Fail),
    ensures
        step(code, i) is Skip ==> scan(code, i) == scan(code, step_end(step(code, i))),
        step(code, i) is Emit ==> scan(code, i) == prepend(
            seq![step(code, i)->Emit_0],
            scan(code, step_end(step(code, i))),
        ),
{
    lemma_step_end(code, i);
}

pub proof fn lemma_prepend_prepend(
    a: Seq<TokenModel>,
    b: Seq<TokenModel>,
    r: Result<Seq<TokenModel>, (int, Failure)>,
)
    ensures
        prepend(a, prepend(b, r)) == prepend(a + b, r),
{
    if let Ok(rest) = r {
        assert(a + (b + rest) =~= (a + b) + rest);
    }
}

/// Row and line start move with each character.
pub proof fn lemma_position_next(code: Seq<char>, i: int)
    requires
        0 <= i < code.len(),
    ensures
        newlines(code.take(i + 1)) == newlines(code.take(i)) + if code[i] == '\n' {
            1nat
        } else {
            0nat
        },
        line_start(code, i + 1) == if code[i] == '\n' {
            i + 1
        } else {
            line_start(code, i)
        },
{
    assert(code.take(i + 1).drop_last() =~= code.take(i));
}

pub proof fn lemma_line_start(code: Seq<char>, i: int)
    requires
        0 <= i <= code.len(),
    ensures
        0 <= line_start(code, i) <= i,
    decreases i,
{
    if i > 0 && code[i - 1] != '\n' {
        lemma_line_start(code, i - 1);
    }
}

/// The value of a prefix of a digit sequence is at most the value of the whole.
pub proof fn lemma_digits_prefix(ds: Seq<char>, radix: nat, n: int)
    requires
        0 <= n <= ds.len(),
        radix >= 1,
    ensures
        digits_value(ds.take(n), radix) <= digits_value(ds, radix),
    decreases ds.len(),
{
    if n == ds.len() {
        assert(ds.take(n) =~= ds);
    } else {
        let init = ds.drop_last();
        lemma_digits_prefix(init, radix, n);
        assert(init.take(n) =~= ds.take(n));
        let v = digits_value(init, radix);
        assert(v * radix >= v) by (nonlinear_arith)
            requires
                radix >= 1,
        ;
    }
}

} // verus!
