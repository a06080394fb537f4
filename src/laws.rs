use vstd::prelude::*;
use crate::scan::{
    digits_value, find_char, find_close, is_radix_digit, is_white_space, lemma_find_char,
    lemma_find_close, lemma_num_scan, lemma_prepend_prepend, lemma_scan_step, lemma_step_end, lex,
    num_scan, prepend, radix_at, scan, step, step_end, Failure, Step,
};
use crate::error::ErrorModel;
use crate::tokens::TokenModel;

verus! {

/// Lexing is a function of the source text alone: equal texts lex alike.
pub proof fn lemma_lex_deterministic(a: Seq<char>, b: Seq<char>)
    requires
        a == b,
    ensures
        lex(a) == lex(b),
{
}

pub open spec fn is_decimal_digits(d: Seq<char>) -> bool {
    forall|k: int| 0 <= k < d.len() ==> '0' <= #[trigger] d[k] <= '9'
}

/// A run of decimal digits from `j` up to `end` that stops at `end` is read whole,
/// without a dot.
proof fn lemma_num_scan_digits(code: Seq<char>, j: int, end: int)
    requires
        0 <= j <= end <= code.len(),
        forall|k: int| j <= k < end ==> '0' <= #[trigger] code[k] <= '9',
        end < code.len() ==> !is_radix_digit(code[end], 10),
        end < code.len() ==> (code[end] != '.' || end + 1 >= code.len() || !is_radix_digit(
            code[end + 1],
            10,
        )),
    ensures
        num_scan(code, 10, j, false) == (end, false),
    decreases end - j,
{
    if j < end {
        lemma_num_scan_digits(code, j + 1, end);
    }
}

/// A decimal literal followed by two dots is an integer: for a non-empty run of
/// digits `d` whose value fits in an `i64`, `d ++ ".." ++ d` lexes as that integer,
/// two dots, and that integer again.
pub proof fn lemma_numeric_dot_boundary(d: Seq<char>)
    requires
        d.len() > 0,
        is_decimal_digits(d),
        digits_value(d, 10) <= i64::MAX,
    ensures
        lex(d + seq!['.', '.'] + d) == Ok::<Seq<TokenModel>, ErrorModel>(
            seq![
                TokenModel::LitInt(digits_value(d, 10) as int),
                TokenModel::Dot,
                TokenModel::Dot,
                TokenModel::LitInt(digits_value(d, 10) as int),
            ],
        ),
{
    let code = d + seq!['.', '.'] + d;
    let n = d.len() as int;
    let v = TokenModel::LitInt(digits_value(d, 10) as int);
    assert(code.len() == 2 * n + 2);
    assert forall|k: int| 0 <= k < n implies code[k] == d[k] && code[n + 2 + k] == d[k] by {}
    assert(code[n] == '.' && code[n + 1] == '.');
    // the first literal
    assert(radix_at(code, 0) == (10nat, 0nat));
    lemma_num_scan_digits(code, 0, n);
    assert(code.subrange(0, n) =~= d);
    assert(step(code, 0) == Step::Emit(v, n));
    lemma_scan_step(code, 0);
    // the two dots
    assert(step(code, n) == Step::Emit(TokenModel::Dot, n + 1));
    lemma_scan_step(code, n);
    assert(step(code, n + 1) == Step::Emit(TokenModel::Dot, n + 2));
    lemma_scan_step(code, n + 1);
    // the second literal
    assert(radix_at(code, n + 2) == (10nat, 0nat));
    lemma_num_scan_digits(code, n + 2, 2 * n + 2);
    assert(code.subrange(n + 2, 2 * n + 2) =~= d);
    assert(step(code, n + 2) == Step::Emit(v, 2 * n + 2));
    lemma_scan_step(code, n + 2);
    assert(scan(code, 2 * n + 2) == Ok::<Seq<TokenModel>, (int, Failure)>(seq![]));
    assert(seq![v] + (seq![TokenModel::Dot] + (seq![TokenModel::Dot] + (seq![v] + seq![])))
        =~= seq![v, TokenModel::Dot, TokenModel::Dot, v]);
}

/// The tokens of a scan that succeeds; `None` if it fails.
pub open spec fn ok_tokens<E>(r: Result<Seq<TokenModel>, E>) -> Option<Seq<TokenModel>> {
    match r {
        Ok(ts) => Some(ts),
        Err(_) => None,
    }
}

/// The tokens that the scan from `i` emits before it stands at `k`, if it ever stands
/// at `k`: `k` is then a boundary between tokens.
pub open spec fn scan_to(code: Seq<char>, i: int, k: int) -> Option<Seq<TokenModel>>
    decreases code.len() - i,
{
    if i == k {
        Some(seq![])
    } else if i < 0 || i >= code.len() || i > k {
        None
    } else {
        let s = step(code, i);
        if s is Fail || step_end(s) <= i || step_end(s) > code.len() {
            None
        } else {
            match scan_to(code, step_end(s), k) {
                Some(t) => Some(
                    if s is Emit {
                        seq![s->Emit_0] + t
                    } else {
                        t
                    },
                ),
                None => None,
            }
        }
    }
}

proof fn lemma_scan_to(code: Seq<char>, i: int, k: int)
    requires
        0 <= i,
        k <= code.len(),
        scan_to(code, i, k) is Some,
    ensures
        i <= k,
        scan(code, i) == prepend(scan_to(code, i, k)->0, scan(code, k)),
    decreases code.len() - i,
{
    if i == k {
        if let Ok(ts) = scan(code, k) {
            assert(seq![] + ts =~= ts);
        }
    } else {
        let s = step(code, i);
        lemma_scan_step(code, i);
        lemma_scan_to(code, step_end(s), k);
        if s is Emit {
            lemma_prepend_prepend(seq![s->Emit_0], scan_to(code, step_end(s), k)->0, scan(code, k));
        }
    }
}

/// The texts `s` and `s2` hold the same characters before `k`.
pub open spec fn agree_before(s: Seq<char>, s2: Seq<char>, k: int) -> bool {
    forall|m: int| 0 <= m < k ==> #[trigger] s[m] == s2[m]
}

proof fn lemma_find_char_agree(s: Seq<char>, s2: Seq<char>, k: int, j: int, c: char)
    requires
        0 <= j <= k <= s.len(),
        k <= s2.len(),
        agree_before(s, s2, k),
        find_char(s, j, c) < k,
    ensures
        find_char(s2, j, c) == find_char(s, j, c),
    decreases k - j,
{
    lemma_find_char(s, j, c);
    assert(j < k);
    assert(s[j] == s2[j]);
    if s[j] == c {
        assert(find_char(s, j, c) == j);
        assert(find_char(s2, j, c) == j);
    }
    if s[j] != c {
        lemma_find_char_agree(s, s2, k, j + 1, c);
    }
}

proof fn lemma_find_close_agree(s: Seq<char>, s2: Seq<char>, k: int, j: int)
    requires
        0 <= j <= k <= s.len(),
        k <= s2.len(),
        agree_before(s, s2, k),
        find_close(s, j) + 1 < k,
    ensures
        find_close(s2, j) == find_close(s, j),
    decreases k - j,
{
    lemma_find_close(s, j);
    assert(j + 1 < k);
    assert(s[j] == s2[j] && s[j + 1] == s2[j + 1]);
    if !(s[j] == '*' && s[j + 1] == '/') {
        lemma_find_close_agree(s, s2, k, j + 1);
    }
}

proof fn lemma_num_scan_agree(s: Seq<char>, s2: Seq<char>, k: int, r: nat, j: int, d: bool)
    requires
        0 <= j <= k <= s.len(),
        k <= s2.len(),
        agree_before(s, s2, k),
        num_scan(s, r, j, d).0 <= k,
        num_scan(s2, r, j, d).0 <= k,
    ensures
        num_scan(s2, r, j, d) == num_scan(s, r, j, d),
    decreases k - j,
{
    lemma_num_scan(s, r, j, d);
    lemma_num_scan(s2, r, j, d);
    if j + 1 <= s.len() {
        lemma_num_scan(s, r, j + 1, d);
        lemma_num_scan(s, r, j + 1, true);
    }
    if j + 1 <= s2.len() {
        lemma_num_scan(s2, r, j + 1, d);
        lemma_num_scan(s2, r, j + 1, true);
    }
    if j + 2 <= s.len() {
        lemma_num_scan(s, r, j + 2, true);
    }
    if j + 2 <= s2.len() {
        lemma_num_scan(s2, r, j + 2, true);
    }
    if j < k {
        assert(s[j] == s2[j]);
        if j + 1 < k {
            assert(s[j + 1] == s2[j + 1]);
        }
        if is_radix_digit(s[j], r) {
            lemma_num_scan_agree(s, s2, k, r, j + 1, d);
        } else if s[j] == '.' && !d && j + 1 < s.len() && is_radix_digit(s[j + 1], r) {
            lemma_num_scan_agree(s, s2, k, r, j + 1, true);
        }
    }
}

/// Two texts that agree before `k` take the same step at `i`, where both steps
/// end by `k`.
proof fn lemma_step_agree(s: Seq<char>, s2: Seq<char>, k: int, i: int)
    requires
        0 <= i < k <= s.len(),
        k <= s2.len(),
        agree_before(s, s2, k),
        !(step(s, i) is Fail),
        step_end(step(s, i)) <= k,
        !(step(s2, i) is Fail),
        step_end(step(s2, i)) <= k,
    ensures
        step(s, i) == step(s2, i),
{
    if i + 1 < k {
    }
    if i + 2 < k {
    }
    lemma_step_end(s, i);
    lemma_step_end(s2, i);
    lemma_find_char(s, i, '\n');
    lemma_find_char(s2, i, '\n');
    lemma_find_char(s, i + 1, '"');
    lemma_find_char(s2, i + 1, '"');
    lemma_find_char(s, i + 1, '\'');
    lemma_find_char(s2, i + 1, '\'');
    lemma_find_close(s, i + 1);
    lemma_find_close(s2, i + 1);
    if find_char(s, i, '\n') < k {
        lemma_find_char_agree(s, s2, k, i, '\n');
    }
    if find_char(s2, i, '\n') < k {
        lemma_find_char_agree(s2, s, k, i, '\n');
    }
    if find_char(s, i + 1, '"') < k {
        lemma_find_char_agree(s, s2, k, i + 1, '"');
    }
    if find_char(s2, i + 1, '"') < k {
        lemma_find_char_agree(s2, s, k, i + 1, '"');
    }
    if find_char(s, i + 1, '\'') < k {
        lemma_find_char_agree(s, s2, k, i + 1, '\'');
    }
    if find_char(s2, i + 1, '\'') < k {
        lemma_find_char_agree(s2, s, k, i + 1, '\'');
    }
    if find_close(s, i + 1) + 1 < k {
        lemma_find_close_agree(s, s2, k, i + 1);
    }
    if find_close(s2, i + 1) + 1 < k {
        lemma_find_close_agree(s2, s, k, i + 1);
    }
    let (r, p) = radix_at(s, i);
    let (radix2, prefix2) = radix_at(s2, i);
    lemma_num_scan(s, r, i + p, false);
    lemma_num_scan(s2, radix2, i + prefix2, false);
    if '0' <= s[i] <= '9' && r == radix2 && p == prefix2 {
        lemma_num_scan_agree(s, s2, k, r, i + p, false);
        let e = num_scan(s, r, i + p, false).0;
        assert(s.subrange(i, e) =~= s2.subrange(i, e));
        assert(s.subrange(i + p, e) =~= s2.subrange(i + p, e));
    }
    let q = find_char(s, i + 1, '"');
    if i + 1 <= q <= k {
        assert(s.subrange(i + 1, q) =~= s2.subrange(i + 1, q));
    }
}

proof fn lemma_scan_to_agree(s: Seq<char>, s2: Seq<char>, k: int, i: int)
    requires
        0 <= i <= k <= s.len(),
        k <= s2.len(),
        agree_before(s, s2, k),
        scan_to(s, i, k) is Some,
        scan_to(s2, i, k) is Some,
    ensures
        scan_to(s, i, k) == scan_to(s2, i, k),
    decreases k - i,
{
    if i < k {
        let e = step_end(step(s, i));
        let e2 = step_end(step(s2, i));
        lemma_scan_to(s, e, k);
        lemma_scan_to(s2, e2, k);
        lemma_step_agree(s, s2, k, i);
        lemma_scan_to_agree(s, s2, k, e);
    }
}

/// A step with all its indices moved by `d`.
pub open spec fn shifted(st: Step, d: int) -> Step {
    match st {
        Step::Skip(e) => Step::Skip(e + d),
        Step::Emit(t, e) => Step::Emit(t, e + d),
        Step::Fail(f) => Step::Fail(f),
    }
}

/// The texts `s` from `k` on and `s2` from `k2` on are the same.
pub open spec fn same_rest(s: Seq<char>, s2: Seq<char>, k: int, k2: int) -> bool {
    &&& 0 <= k <= s.len()
    &&& 0 <= k2 <= s2.len()
    &&& s.subrange(k, s.len() as int) == s2.subrange(k2, s2.len() as int)
}

proof fn lemma_same_rest_index(s: Seq<char>, s2: Seq<char>, k: int, k2: int, j: int)
    requires
        same_rest(s, s2, k, k2),
        k <= j < s.len(),
    ensures
        s.len() - k == s2.len() - k2,
        s[j] == s2[j - k + k2],
{
    assert(s.subrange(k, s.len() as int).len() == s2.subrange(k2, s2.len() as int).len());
    assert(s.subrange(k, s.len() as int)[j - k] == s2.subrange(k2, s2.len() as int)[j - k]);
}

proof fn lemma_find_char_shift(s: Seq<char>, s2: Seq<char>, k: int, k2: int, j: int, c: char)
    requires
        same_rest(s, s2, k, k2),
        k <= j <= s.len(),
    ensures
        find_char(s2, j - k + k2, c) == find_char(s, j, c) - k + k2,
    decreases s.len() - j,
{
    assert(s.subrange(k, s.len() as int).len() == s2.subrange(k2, s2.len() as int).len());
    if j < s.len() {
        lemma_same_rest_index(s, s2, k, k2, j);
        if s[j] != c {
            lemma_find_char_shift(s, s2, k, k2, j + 1, c);
        }
    }
}

proof fn lemma_find_close_shift(s: Seq<char>, s2: Seq<char>, k: int, k2: int, j: int)
    requires
        same_rest(s, s2, k, k2),
        k <= j <= s.len(),
    ensures
        find_close(s2, j - k + k2) == find_close(s, j) - k + k2,
    decreases s.len() - j,
{
    assert(s.subrange(k, s.len() as int).len() == s2.subrange(k2, s2.len() as int).len());
    if j + 1 < s.len() {
        lemma_same_rest_index(s, s2, k, k2, j);
        lemma_same_rest_index(s, s2, k, k2, j + 1);
        if !(s[j] == '*' && s[j + 1] == '/') {
            lemma_find_close_shift(s, s2, k, k2, j + 1);
        }
    }
}

proof fn lemma_num_scan_shift(s: Seq<char>, s2: Seq<char>, k: int, k2: int, r: nat, j: int, d: bool)
    requires
        same_rest(s, s2, k, k2),
        k <= j <= s.len(),
    ensures
        num_scan(s2, r, j - k + k2, d) == (num_scan(s, r, j, d).0 - k + k2, num_scan(s, r, j, d).1),
    decreases s.len() - j,
{
    assert(s.subrange(k, s.len() as int).len() == s2.subrange(k2, s2.len() as int).len());
    if j < s.len() {
        lemma_same_rest_index(s, s2, k, k2, j);
        if j + 1 < s.len() {
            lemma_same_rest_index(s, s2, k, k2, j + 1);
        }
        if is_radix_digit(s[j], r) {
            lemma_num_scan_shift(s, s2, k, k2, r, j + 1, d);
        } else if s[j] == '.' && !d && j + 1 < s.len() && is_radix_digit(s[j + 1], r) {
            lemma_num_scan_shift(s, s2, k, k2, r, j + 1, true);
        }
    }
}

proof fn lemma_step_shift(s: Seq<char>, s2: Seq<char>, k: int, k2: int, i: int)
    requires
        same_rest(s, s2, k, k2),
        k <= i < s.len(),
    ensures
        step(s2, i - k + k2) == shifted(step(s, i), k2 - k),
{
    let i2 = i - k + k2;
    lemma_same_rest_index(s, s2, k, k2, i);
    if i + 1 < s.len() {
        lemma_same_rest_index(s, s2, k, k2, i + 1);
    }
    if i + 2 < s.len() {
        lemma_same_rest_index(s, s2, k, k2, i + 2);
    }
    lemma_find_char_shift(s, s2, k, k2, i, '\n');
    lemma_find_char_shift(s, s2, k, k2, i + 1, '"');
    lemma_find_char_shift(s, s2, k, k2, i + 1, '\'');
    lemma_find_close_shift(s, s2, k, k2, i + 1);
    lemma_find_char(s, i + 1, '"');
    let (r, p) = radix_at(s, i);
    assert(radix_at(s2, i2) == (r, p));
    lemma_num_scan_shift(s, s2, k, k2, r, i + p, false);
    lemma_num_scan(s, r, i + p, false);
    let e = num_scan(s, r, i + p, false).0;
    if i + p <= e {
        assert(s.subrange(i, e) =~= s2.subrange(i2, e - k + k2)) by {
            assert forall|m: int| 0 <= m < e - i implies #[trigger] s.subrange(i, e)[m] == s2.subrange(
                i2,
                e - k + k2,
            )[m] by {
                lemma_same_rest_index(s, s2, k, k2, i + m);
            }
        }
        assert(s.subrange(i + p, e) =~= s2.subrange(i2 + p, e - k + k2)) by {
            assert forall|m: int| 0 <= m < e - i - p implies #[trigger] s.subrange(i + p, e)[m]
                == s2.subrange(i2 + p, e - k + k2)[m] by {
                lemma_same_rest_index(s, s2, k, k2, i + p + m);
            }
        }
    }
    let q = find_char(s, i + 1, '"');
    if q <= s.len() {
        assert(s.subrange(i + 1, q) =~= s2.subrange(i2 + 1, q - k + k2)) by {
            assert forall|m: int| 0 <= m < q - i - 1 implies #[trigger] s.subrange(i + 1, q)[m]
                == s2.subrange(i2 + 1, q - k + k2)[m] by {
                lemma_same_rest_index(s, s2, k, k2, i + 1 + m);
            }
        }
    }
}

proof fn lemma_scan_shift(s: Seq<char>, s2: Seq<char>, k: int, k2: int, i: int)
    requires
        same_rest(s, s2, k, k2),
        k <= i <= s.len(),
    ensures
        ok_tokens(scan(s2, i - k + k2)) == ok_tokens(scan(s, i)),
    decreases s.len() - i,
{
    assert(s.subrange(k, s.len() as int).len() == s2.subrange(k2, s2.len() as int).len());
    if i < s.len() {
        lemma_step_shift(s, s2, k, k2, i);
        lemma_step_end(s, i);
        let st = step(s, i);
        if !(st is Fail) {
            lemma_scan_step(s, i);
            lemma_step_end(s2, i - k + k2);
            lemma_scan_step(s2, i - k + k2);
            lemma_scan_shift(s, s2, k, k2, step_end(st));
        }
    }
}

proof fn lemma_skip_white(s: Seq<char>, i: int, j: int)
    requires
        0 <= i <= j <= s.len(),
        forall|m: int| i <= m < j ==> is_white_space(#[trigger] s[m]),
    ensures
        scan(s, i) == scan(s, j),
    decreases j - i,
{
    if i < j {
        assert(is_white_space(s[i]));
        lemma_scan_step(s, i);
        lemma_skip_white(s, i + 1, j);
    }
}

/// Whitespace between tokens does not change them: where `a` ends at a boundary
/// between tokens both in `a ++ b` and in `a ++ w ++ b`, and `w` is all whitespace,
/// the two texts give the same tokens, or both fail.
pub proof fn lemma_whitespace_transparent(a: Seq<char>, w: Seq<char>, b: Seq<char>)
    requires
        forall|m: int| 0 <= m < w.len() ==> is_white_space(#[trigger] w[m]),
        scan_to(a + b, 0, a.len() as int) is Some,
        scan_to(a + w + b, 0, a.len() as int) is Some,
    ensures
        ok_tokens(lex(a + b)) == ok_tokens(lex(a + w + b)),
{
    let s = a + b;
    let s2 = a + w + b;
    let k = a.len() as int;
    assert(agree_before(s, s2, k));
    lemma_scan_to_agree(s, s2, k, 0);
    lemma_scan_to(s, 0, k);
    lemma_scan_to(s2, 0, k);
    assert forall|m: int| k <= m < k + w.len() implies is_white_space(#[trigger] s2[m]) by {
        assert(s2[m] == w[m - k]);
    }
    lemma_skip_white(s2, k, k + w.len());
    assert(s.subrange(k, s.len() as int) =~= s2.subrange(k + w.len(), s2.len() as int));
    lemma_scan_shift(s, s2, k, k + w.len(), k);
}

/// A comment reads as a single space: where `c` is one whole comment right after `a`
/// in `a ++ c ++ b`, and `a` ends at a boundary between tokens both there and in
/// `a ++ " " ++ b`, the two texts give the same tokens, or both fail.
pub proof fn lemma_comment_elision(a: Seq<char>, c: Seq<char>, b: Seq<char>)
    requires
        c.len() >= 2,
        c[0] == '/',
        c[1] == '/' || c[1] == '*',
        step(a + c + b, a.len() as int) == Step::Skip((a.len() + c.len()) as int),
        scan_to(a + c + b, 0, a.len() as int) is Some,
        scan_to(a + seq![' '] + b, 0, a.len() as int) is Some,
    ensures
        ok_tokens(lex(a + c + b)) == ok_tokens(lex(a + seq![' '] + b)),
{
    let s = a + c + b;
    let s2 = a + seq![' '] + b;
    let k = a.len() as int;
    assert(agree_before(s, s2, k));
    lemma_scan_to_agree(s, s2, k, 0);
    lemma_scan_to(s, 0, k);
    lemma_scan_to(s2, 0, k);
    lemma_scan_step(s, k);
    assert(s2[k] == ' ');
    lemma_skip_white(s2, k, k + 1);
    assert(s.subrange(k + c.len(), s.len() as int) =~= s2.subrange(k + 1, s2.len() as int));
    lemma_scan_shift(s, s2, k + c.len(), k + 1, k + c.len());
}

} // verus!
