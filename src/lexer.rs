use vstd::prelude::*;
use crate::error::{Error, ErrorModel, ErrorPosition, FloatErrorKind, IntErrorKind};
use crate::position::LexerPosition;
use crate::scan::{
    digit_value, digits_value, error_at, find_char, find_close, is_radix_digit, is_white_space,
    lemma_digits_prefix, lemma_find_char, lemma_line_start, lemma_num_scan, lemma_position_next,
    lemma_prepend_prepend, lemma_scan_step, lemma_step_end, lex, line_start, newlines,
    num_scan, number_step, position_at, prepend, radix_at, scan, step, step_end, Failure, Step,
};
use crate::tokens::{tokens_view, Delimiter, Operator, Side, Token, TokenModel};

verus! {

/// The model of what lexing returns.
pub open spec fn result_view(r: Result<Vec<Token>, Error>) -> Result<Seq<TokenModel>, ErrorModel> {
    match r {
        Ok(ts) => Ok(tokens_view(ts@)),
        Err(e) => Err(e@),
    }
}

/// Whether `c` has Unicode's White_Space property.
pub fn white_space(c: char) -> (r: bool)
    ensures
        r == is_white_space(c),
{
    let u = c as u32;
    (0x09 <= u && u <= 0x0D) || u == 0x20 || u == 0x85 || u == 0xA0 || u == 0x1680 || (0x2000
        <= u && u <= 0x200A) || u == 0x2028 || u == 0x2029 || u == 0x202F || u == 0x205F || u
        == 0x3000
}

/// The value of `c` as a digit in a radix up to 36, or 36 if it is no digit.
pub fn digit_of(c: char) -> (r: u32)
    ensures
        r == digit_value(c),
{
    if '0' <= c && c <= '9' {
        c as u32 - '0' as u32
    } else if 'a' <= c && c <= 'z' {
        c as u32 - 'a' as u32 + 10
    } else if 'A' <= c && c <= 'Z' {
        c as u32 - 'A' as u32 + 10
    } else {
        36
    }
}

/// A scanner over one source text.
pub struct Lexer<'a> {
    source: &'a str,
    code: Vec<char>,
    position: LexerPosition,
    tokens: Vec<Token>,
}

impl<'a> Lexer<'a> {
    /// The characters of the source.
    pub closed spec fn code_view(&self) -> Seq<char> {
        self.code@
    }

    pub closed spec fn position_view(&self) -> LexerPosition {
        self.position
    }

    /// The tokens emitted so far.
    pub closed spec fn tokens_so_far(&self) -> Seq<TokenModel> {
        tokens_view(self.tokens@)
    }

    /// The position agrees with the characters passed.
    pub closed spec fn position_ok(&self) -> bool {
        let code = self.code@;
        let i = self.position.index as int;
        &&& code == self.source@
        &&& self.position.wf()
        &&& i <= code.len()
        &&& self.position.row == newlines(code.take(i))
        &&& self.position.row_index == line_start(code, i)
    }

    /// The position agrees with the characters passed, and the tokens emitted so far
    /// followed by the scan of the rest are the scan of the whole source.
    pub closed spec fn wf(&self) -> bool {
        &&& self.position_ok()
        &&& scan(self.code@, 0) == prepend(
            tokens_view(self.tokens@),
            scan(self.code@, self.position.index as int),
        )
    }

    pub fn new(code: &'a str) -> (r: Self)
        ensures
            r.wf(),
            r.code_view() == code@,
            r.position_view() == (LexerPosition { index: 0, row: 0, row_index: 0, column: 0 }),
            r.tokens_so_far() == Seq::<TokenModel>::empty(),
    {
        let mut chars: Vec<char> = Vec::new();
        for c in it: code.chars()
            invariant
                chars@ == it.seq().take(it.index() as int),
        {
            chars.push(c);
        }
        assert(chars@ =~= code@);
        let r = Self { source: code, code: chars, position: LexerPosition::new(), tokens: Vec::new() };
        proof {
            assert(newlines(r.code@.take(0)) == 0);
            assert(r.position_ok());
            assert(r.code@.take(0) =~= Seq::<char>::empty());
            assert(tokens_view(r.tokens@) =~= Seq::<TokenModel>::empty());
            lemma_prepend_prepend(seq![], seq![], scan(r.code@, 0));
            if let Ok(ts) = scan(r.code@, 0) {
                assert(Seq::<TokenModel>::empty() + ts =~= ts);
            }
        }
        r
    }

    /// Where the scanner stands.
    pub fn position(&self) -> (r: LexerPosition)
        ensures
            r == self.position_view(),
    {
        self.position
    }

    /// Scans the rest of the source and returns all tokens, or the first error.
    pub fn run(self) -> (r: Result<Vec<Token>, Error>)
        requires
            self.wf(),
        ensures
            result_view(r) == lex(self.code_view()),
    {
        let mut lexer = self;
        let ghost code = lexer.code@;
        while lexer.position.index < lexer.code.len()
            invariant
                lexer.wf(),
                lexer.code@ == code,
                code == self.code_view(),
            decreases code.len() - lexer.position.index,
        {
            let ghost i = lexer.position.index as int;
            let ghost toks = tokens_view(lexer.tokens@);
            proof {
                lemma_step_end(code, i);
                assert(scan(code, 0) == prepend(toks, scan(code, i)));
            }
            match lexer.advance() {
                Ok(_) => {},
                Err(e) => {
                    assert(scan(code, i) == Err::<Seq<TokenModel>, (int, Failure)>(
                        (i, step(code, i)->Fail_0),
                    ));
                    return Err(e);
                },
            }
        }
        proof {
            assert(tokens_view(lexer.tokens@) + seq![] =~= tokens_view(lexer.tokens@));
        }
        Ok(lexer.tokens)
    }

    /// Takes one step of the scanner, and says whether any source is left.
    pub fn advance(&mut self) -> (r: Result<bool, Error>)
        requires
            old(self).wf(),
            old(self).position_view().index < old(self).code_view().len(),
        ensures
            final(self).wf(),
            final(self).code_view() == old(self).code_view(),
            final(self).position_view().column == final(self).position_view().index
                - final(self).position_view().row_index,
            final(self).position_view().row == newlines(
                final(self).code_view().take(final(self).position_view().index as int),
            ),
            ({
                let code = old(self).code_view();
                let i = old(self).position_view().index as int;
                match step(code, i) {
                    Step::Fail(f) => r is Err && r->Err_0@ == error_at(code, i, f),
                    Step::Skip(e) => r == Ok::<bool, Error>(e < code.len())
                        && final(self).position_view().index == e
                        && final(self).tokens_so_far() == old(self).tokens_so_far(),
                    Step::Emit(t, e) => r == Ok::<bool, Error>(e < code.len())
                        && final(self).position_view().index == e
                        && final(self).tokens_so_far() == old(self).tokens_so_far().push(t),
                }
            }),
    {
        match self.process() {
            Ok(()) => Ok(self.position.index < self.code.len()),
            Err(e) => Err(e),
        }
    }

    fn get_prev(&self) -> (r: Option<char>)
        requires
            self.position.index <= self.code.len(),
        ensures
            r == if self.position.index == 0 {
                None
            } else {
                Some(self.code@[self.position.index - 1])
            },
    {
        if self.position.index == 0 {
            None
        } else {
            Some(self.code[self.position.index - 1])
        }
    }

    fn get_this(&self) -> (r: char)
        requires
            self.position.index < self.code.len(),
        ensures
            r == self.code@[self.position.index as int],
    {
        self.code[self.position.index]
    }

    fn get_next(&self) -> (r: Option<char>)
        requires
            self.position.index < self.code.len(),
        ensures
            r == if self.position.index + 1 < self.code.len() {
                Some(self.code@[self.position.index + 1])
            } else {
                None
            },
    {
        if self.position.index + 1 < self.code.len() {
            Some(self.code[self.position.index + 1])
        } else {
            None
        }
    }

    fn get_chars(&self) -> (r: (Option<char>, char, Option<char>))
        requires
            self.position.index < self.code.len(),
        ensures
            r.0 == if self.position.index == 0 {
                None
            } else {
                Some(self.code@[self.position.index - 1])
            },
            r.1 == self.code@[self.position.index as int],
            r.2 == if self.position.index + 1 < self.code.len() {
                Some(self.code@[self.position.index + 1])
            } else {
                None
            },
    {
        (self.get_prev(), self.get_this(), self.get_next())
    }

    /// The index of the first `target` at or after `after`, or the length of the source.
    fn find_next(&self, after: usize, target: char) -> (r: usize)
        requires
            after <= self.code.len(),
        ensures
            r == find_char(self.code@, after as int, target),
    {
        let mut k = after;
        while k < self.code.len() && self.code[k] != target
            invariant
                after <= k <= self.code.len(),
                find_char(self.code@, after as int, target) == find_char(self.code@, k as int, target),
            decreases self.code.len() - k,
        {
            k += 1;
        }
        k
    }

    fn make_error_pos(&self) -> (r: ErrorPosition)
        requires
            self.wf(),
        ensures
            r@ == position_at(self.code@, self.position.index as int),
    {
        proof {
            lemma_line_start(self.code@, self.position.index as int);
        }
        let start = self.position.row_index;
        let end = self.find_next(start, '\n');
        proof {
            lemma_find_char(self.code@, start as int, '\n');
        }
        let code_row = self.source.substring_char(start, end).to_owned();
        ErrorPosition { code_row, row: self.position.row, column: self.position.column, file_path: None }
    }

    /// Moves the position over the characters up to `end`, counting line breaks.
    fn skip_to(&mut self, end: usize)
        requires
            old(self).position_ok(),
            old(self).position.index <= end <= old(self).code.len(),
        ensures
            final(self).position_ok(),
            final(self).position.index == end,
            final(self).code@ == old(self).code@,
            final(self).tokens@ == old(self).tokens@,
    {
        let ghost code = self.code@;
        let ghost tokens = self.tokens@;
        while self.position.index < end
            invariant
                self.position_ok(),
                self.position.index <= end <= code.len(),
                self.code@ == code,
                self.tokens@ == tokens,
            decreases end - self.position.index,
        {
            proof {
                lemma_position_next(code, self.position.index as int);
            }
            if self.code[self.position.index] == '\n' {
                self.position.new_line();
            } else {
                self.position.advance(1);
            }
        }
    }

    /// Takes the step of the scanner at the current index.
    fn process(&mut self) -> (r: Result<(), Error>)
        requires
            old(self).wf(),
            old(self).position.index < old(self).code.len(),
        ensures
            final(self).wf(),
            final(self).code@ == old(self).code@,
            ({
                let code = old(self).code@;
                let i = old(self).position.index as int;
                match step(code, i) {
                    Step::Fail(f) => r is Err && r->Err_0@ == error_at(code, i, f),
                    Step::Skip(e) => r is Ok && final(self).position.index == e
                        && tokens_view(final(self).tokens@) == tokens_view(old(self).tokens@),
                    Step::Emit(t, e) => r is Ok && final(self).position.index == e
                        && tokens_view(final(self).tokens@) == tokens_view(old(self).tokens@).push(t),
                }
            }),
    {
        let ghost code = self.code@;
        let ghost i = self.position.index as int;
        let ghost old_tokens = tokens_view(self.tokens@);
        proof {
            lemma_step_end(code, i);
        }
        let (_, this, next) = self.get_chars();
        let at = self.position.index;
        let next_is_gt = match next { Some(n) => n == '>', None => false };
        let next_is_slash = match next { Some(n) => n == '/', None => false };
        let next_is_star = match next { Some(n) => n == '*', None => false };
        let mut token: Option<Token> = None;
        let end: usize;
        if white_space(this) {
            end = at + 1;
        } else if this == '.' {
            token = Some(Token::Dot);
            end = at + 1;
        } else if this == ',' {
            token = Some(Token::Comma);
            end = at + 1;
        } else if this == '+' {
            token = Some(Token::Operator(Operator::Add));
            end = at + 1;
        } else if this == '-' && next_is_gt {
            token = Some(Token::Arrow);
            end = at + 2;
        } else if this == '-' {
            token = Some(Token::Operator(Operator::Sub));
            end = at + 1;
        } else if this == '*' {
            token = Some(Token::Operator(Operator::Mul));
            end = at + 1;
        } else if this == '/' && next_is_slash {
            end = at + self.inline_comment();
        } else if this == '/' && next_is_star {
            match self.block_comment() {
                Ok(n) => {
                    end = at + n;
                },
                Err(e) => {
                    return Err(e);
                },
            }
        } else if this == '/' {
            token = Some(Token::Operator(Operator::Div));
            end = at + 1;
        } else if this == '(' {
            token = Some(Token::Group(Delimiter::Parentheses, Side::Left));
            end = at + 1;
        } else if this == ')' {
            token = Some(Token::Group(Delimiter::Parentheses, Side::Right));
            end = at + 1;
        } else if this == '{' {
            token = Some(Token::Group(Delimiter::Braces, Side::Left));
            end = at + 1;
        } else if this == '}' {
            token = Some(Token::Group(Delimiter::Braces, Side::Right));
            end = at + 1;
        } else if this == '[' {
            token = Some(Token::Group(Delimiter::Brackets, Side::Left));
            end = at + 1;
        } else if this == ']' {
            token = Some(Token::Group(Delimiter::Brackets, Side::Right));
            end = at + 1;
        } else if this == '"' {
            match self.lit_str() {
                Ok((t, n)) => {
                    token = Some(t);
                    end = at + n;
                },
                Err(e) => {
                    return Err(e);
                },
            }
        } else if this == '\'' {
            match self.lit_char() {
                Ok((t, n)) => {
                    token = Some(t);
                    end = at + n;
                },
                Err(e) => {
                    return Err(e);
                },
            }
        } else if '0' <= this && this <= '9' {
            match self.lit_num() {
                Ok((t, n)) => {
                    token = Some(t);
                    end = at + n;
                },
                Err(e) => {
                    return Err(e);
                },
            }
        } else {
            return Err(Error::InvalidCharacter(self.make_error_pos(), this));
        }
        assert(end == step_end(step(code, i)));
        match token {
            Some(t) => {
                assert(step(code, i) is Emit && t@ == step(code, i)->Emit_0);
                self.tokens.push(t);
                proof {
                    assert(tokens_view(self.tokens@) =~= old_tokens.push(t@));
                }
            },
            None => {
                assert(step(code, i) is Skip);
            },
        }
        self.skip_to(end);
        proof {
            lemma_scan_step(code, i);
            let s = step(code, i);
            if s is Emit {
                lemma_prepend_prepend(old_tokens, seq![s->Emit_0], scan(code, end as int));
                assert(old_tokens + seq![s->Emit_0] =~= old_tokens.push(s->Emit_0));
            }
        }
        Ok(())
    }

    fn inline_comment(&self) -> (r: usize)
        requires
            self.wf(),
            self.position.index < self.code.len(),
        ensures
            r == find_char(self.code@, self.position.index as int, '\n') - self.position.index,
    {
        proof {
            lemma_find_char(self.code@, self.position.index as int, '\n');
        }
        self.find_next(self.position.index, '\n') - self.position.index
    }

    fn block_comment(&self) -> (r: Result<usize, Error>)
        requires
            self.wf(),
            self.position.index < self.code.len(),
        ensures
            ({
                let code = self.code@;
                let i = self.position.index as int;
                let k = find_close(code, i + 1);
                if k >= code.len() {
                    r is Err && r->Err_0@ == error_at(code, i, Failure::EofBlockComment)
                } else {
                    r == Ok::<usize, Error>((k + 2 - i) as usize)
                }
            }),
    {
        let ghost code = self.code@;
        let first = self.position.index;
        let mut k = first + 1;
        while k < self.code.len() && k + 1 < self.code.len() && !(self.code[k] == '*'
            && self.code[k + 1] == '/')
            invariant
                first + 1 <= k <= self.code.len(),
                find_close(code, first + 1) == find_close(code, k as int),
                self.code@ == code,
            decreases self.code.len() - k,
        {
            k += 1;
        }
        if k >= self.code.len() - 1 {
            return Err(Error::UnexpectedEOF(self.make_error_pos(), "while waiting for the trailing */"));
        }
        Ok(k + 2 - first)
    }

    fn lit_str(&self) -> (r: Result<(Token, usize), Error>)
        requires
            self.wf(),
            self.position.index < self.code.len(),
        ensures
            ({
                let code = self.code@;
                let i = self.position.index as int;
                let k = find_char(code, i + 1, '"');
                if k >= code.len() {
                    r is Err && r->Err_0@ == error_at(code, i, Failure::EofStr)
                } else {
                    r is Ok && r->Ok_0.0@ == TokenModel::LitStr(code.subrange(i + 1, k))
                        && r->Ok_0.1 == k + 1 - i
                }
            }),
    {
        let first = self.position.index;
        let last = self.find_next(first + 1, '"');
        proof {
            lemma_find_char(self.code@, first + 1, '"');
        }
        if last >= self.code.len() {
            return Err(Error::UnexpectedEOF(self.make_error_pos(), "while waiting for the trailing \""));
        }
        let text = self.source.substring_char(first + 1, last).to_owned();
        Ok((Token::LitStr(text), last + 1 - first))
    }

    fn lit_char(&self) -> (r: Result<(Token, usize), Error>)
        requires
            self.wf(),
            self.position.index < self.code.len(),
        ensures
            ({
                let code = self.code@;
                let i = self.position.index as int;
                let k = find_char(code, i + 1, '\'');
                if k >= code.len() {
                    r is Err && r->Err_0@ == error_at(code, i, Failure::EofChar)
                } else if k != i + 2 {
                    r is Err && r->Err_0@ == error_at(code, i, Failure::InvalidLitChar)
                } else {
                    r is Ok && r->Ok_0.0@ == TokenModel::LitChar(code[i + 1]) && r->Ok_0.1 == 3
                }
            }),
    {
        let first = self.position.index;
        let last = self.find_next(first + 1, '\'');
        proof {
            lemma_find_char(self.code@, first + 1, '\'');
        }
        if last >= self.code.len() {
            return Err(Error::UnexpectedEOF(self.make_error_pos(), "while waiting for the trailing '"));
        }
        if last != first + 2 {
            return Err(Error::InvalidLitChar(self.make_error_pos(), "a char has to have exactly one codepoint"));
        }
        Ok((Token::LitChar(self.code[first + 1]), 3))
    }

    fn parse_radix(&self) -> (r: (u32, usize))
        requires
            self.position.index < self.code.len(),
        ensures
            r.0 as nat == radix_at(self.code@, self.position.index as int).0,
            r.1 as nat == radix_at(self.code@, self.position.index as int).1,
    {
        match self.get_chars() {
            (_, '0', Some('x')) => (16, 2),
            (_, '0', Some('o')) => (8, 2),
            (_, '0', Some('b')) => (2, 2),
            _ => (10, 0),
        }
    }

    fn lit_num(&self) -> (r: Result<(Token, usize), Error>)
        requires
            self.wf(),
            self.position.index < self.code.len(),
            '0' <= self.code@[self.position.index as int] <= '9',
        ensures
            ({
                let code = self.code@;
                let i = self.position.index as int;
                match number_step(code, i) {
                    Step::Fail(f) => r is Err && r->Err_0@ == error_at(code, i, f),
                    Step::Emit(t, e) => r is Ok && r->Ok_0.0@ == t && r->Ok_0.1 == e - i,
                    Step::Skip(_) => false,
                }
            }),
    {
        let ghost code = self.code@;
        let first = self.position.index;
        let (radix, offset) = self.parse_radix();
        let start = first + offset;
        proof {
            lemma_num_scan(code, radix as nat, start as int, false);
        }
        let mut j = start;
        let mut dot = false;
        let mut stop = false;
        while !stop && j < self.code.len()
            invariant
                start <= j <= code.len(),
                self.wf(),
                self.code@ == code,
                num_scan(code, radix as nat, start as int, false) == num_scan(code, radix as nat, j as int, dot),
                stop ==> num_scan(code, radix as nat, j as int, dot) == (j as int, dot),
            decreases code.len() - j, if stop { 0int } else { 1int },
        {
            let c = self.code[j];
            if digit_of(c) < radix {
                j += 1;
            } else if c == '.' && !dot && j + 1 < self.code.len() && digit_of(self.code[j + 1]) < radix {
                dot = true;
                j += 1;
            } else {
                stop = true;
            }
        }
        assert(num_scan(code, radix as nat, j as int, dot) == (j as int, dot));
        let ghost ds = code.subrange(start as int, j as int);
        if dot {
            if radix != 10 {
                return Err(Error::InvalidLitFloat(self.make_error_pos(), FloatErrorKind::Invalid));
            }
            let text = self.source.substring_char(first, j).to_owned();
            return Ok((Token::LitFloat(text), j - first));
        }
        if j == start {
            return Err(Error::InvalidLitInt(self.make_error_pos(), IntErrorKind::Empty));
        }
        let ghost outcome = if digits_value(ds, radix as nat) > i64::MAX {
            Step::Fail(Failure::InvalidLitInt(IntErrorKind::PosOverflow))
        } else {
            Step::Emit(TokenModel::LitInt(digits_value(ds, radix as nat) as int), j as int)
        };
        assert(number_step(code, first as int) == outcome);
        let r = radix as i64;
        let mut value: i64 = 0;
        let mut k = start;
        while k < j
            invariant
                start <= k <= j <= code.len(),
                self.wf(),
                self.code@ == code,
                ds == code.subrange(start as int, j as int),
                number_step(code, first as int) == outcome,
                outcome == if digits_value(ds, radix as nat) > i64::MAX {
                    Step::Fail(Failure::InvalidLitInt(IntErrorKind::PosOverflow))
                } else {
                    Step::Emit(TokenModel::LitInt(digits_value(ds, radix as nat) as int), j as int)
                },
                first == self.position.index,
                2 <= r <= 16,
                r == radix,
                forall|m: int| start <= m < j ==> is_radix_digit(#[trigger] code[m], radix as nat),
                value >= 0,
                value as int == digits_value(code.subrange(start as int, k as int), radix as nat),
            decreases j - k,
        {
            let d = digit_of(self.code[k]) as i64;
            proof {
                assert(code.subrange(start as int, k + 1).drop_last() =~= code.subrange(start as int, k as int));
                assert(code.subrange(start as int, k + 1).last() == code[k as int]);
            }
            if value > (i64::MAX - d) / r {
                proof {
                    let dk = code.subrange(start as int, k + 1);
                    assert(digits_value(dk, radix as nat) == digits_value(dk.drop_last(), radix as nat)
                        * radix as nat + digit_value(dk.last()));
                    lemma_overflow(value as int, r as int, d as int);

                    assert(ds.take(k + 1 - start) =~= code.subrange(start as int, k + 1));
                    lemma_digits_prefix(ds, radix as nat, k + 1 - start);

                }
                return Err(Error::InvalidLitInt(self.make_error_pos(), IntErrorKind::PosOverflow));
            }
            proof {
                lemma_no_overflow(value as int, r as int, d as int);
            }
            value = value * r + d;
            k += 1;
        }
        assert(code.subrange(start as int, k as int) =~= ds);
        Ok((Token::LitInt(value), j - first))
    }
}

proof fn lemma_overflow(v: int, r: int, d: int)
    requires
        0 < r <= 16,
        0 <= d < r,
        v > (i64::MAX - d) / r,
    ensures
        v * r + d > i64::MAX,
{
    let m = i64::MAX - d;
    assert(m < (m / r + 1) * r) by (nonlinear_arith)
        requires
            r > 0,
            m >= 0,
    ;
    assert(v * r >= (m / r + 1) * r) by (nonlinear_arith)
        requires
            v >= m / r + 1,
            r > 0,
    ;
}

proof fn lemma_no_overflow(v: int, r: int, d: int)
    requires
        0 < r <= 16,
        0 <= d < r,
        0 <= v <= (i64::MAX - d) / r,
    ensures
        0 <= v * r + d <= i64::MAX,
{
    let m = i64::MAX - d;
    assert((m / r) * r <= m) by (nonlinear_arith)
        requires
            r > 0,
            m >= 0,
    ;
    assert(0 <= v * r <= (m / r) * r) by (nonlinear_arith)
        requires
            0 <= v <= m / r,
            r > 0,
    ;
}

/// Lexes `code`: all its tokens, or the first error, with its position.
pub fn run_lexer(code: &str) -> (r: Result<Vec<Token>, Error>)
    ensures
        result_view(r) == lex(code@),
{
    Lexer::new(code).run()
}

} // verus!
