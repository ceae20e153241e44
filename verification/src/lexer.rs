//! The lexer: source text to tokens.

use vstd::prelude::*;
use crate::text::{
    char_is_alphabetic, char_is_alphanumeric, char_is_digit, char_is_uppercase, decimal_of,
    is_digit, occurrences, parse_decimal,
};
use crate::token::{Token, TokenView};

verus! {

/// Why lexing stopped.
#[derive(Debug, Clone, Copy, PartialEq, Eq, Structural)]
pub enum LexError {
    /// The input ended inside a string literal.
    UnterminatedString,
}

impl LexError {
    /// A short description of the error.
    pub fn message(&self) -> (text: &'static str)
        ensures
            text@ == "unterminated string literal!"@,
    {
        "unterminated string literal!"
    }
}

/// A cursor over the characters of a source text.
pub struct CharStream {
    chars: Vec<char>,
    pos: usize,
}

impl CharStream {
    #[verifier::type_invariant]
    spec fn in_bounds(self) -> bool {
        self.pos <= self.chars.len()
    }

    /// The whole text that the cursor runs over.
    pub closed spec fn source(&self) -> Seq<char> {
        self.chars@
    }

    /// How many characters have been taken.
    pub closed spec fn position(&self) -> int {
        self.pos as int
    }

    /// A cursor at the start of `input`.
    pub fn new(input: &str) -> (stream: CharStream)
        ensures
            stream.source() == input@,
            stream.position() == 0,
    {
        let mut chars: Vec<char> = Vec::new();
        for c in it: input.chars()
            invariant
                chars@ == it.seq().take(it.index()),
        {
            chars.push(c);
        }
        CharStream { chars, pos: 0 }
    }

    /// Takes the next character, if there is one.
    pub fn next(&mut self) -> (c: Option<char>)
        ensures
            final(self).source() == old(self).source(),
            0 <= old(self).position() <= old(self).source().len(),
            old(self).position() < old(self).source().len() ==> c == Some(
                old(self).source()[old(self).position()],
            ) && final(self).position() == old(self).position() + 1,
            old(self).position() >= old(self).source().len() ==> c.is_none()
                && final(self).position() == old(self).position(),
    {
        proof {
            use_type_invariant(&*self);
        }
        if self.pos < self.chars.len() {
            let c = self.chars[self.pos];
            self.pos = self.pos + 1;
            Some(c)
        } else {
            None
        }
    }

    /// The next character, if there is one, without taking it.
    pub fn peek(&self) -> (c: Option<char>)
        ensures
            0 <= self.position() <= self.source().len(),
            self.position() < self.source().len() ==> c == Some(self.source()[self.position()]),
            self.position() >= self.source().len() ==> c.is_none(),
    {
        proof {
            use_type_invariant(self);
        }
        if self.pos < self.chars.len() {
            Some(self.chars[self.pos])
        } else {
            None
        }
    }
}

/// What one scanning rule found: a token, if it matched, and the position
/// after the characters it took.
pub struct Scanned {
    pub token: Option<TokenView>,
    pub next: int,
}

/// The end of the longest run of characters of `class` that starts at `pos`.
pub open spec fn run_end(s: Seq<char>, pos: int, class: spec_fn(char) -> bool) -> int
    decreases s.len() - pos,
{
    if 0 <= pos < s.len() && class(s[pos]) {
        run_end(s, pos + 1, class)
    } else {
        pos
    }
}

/// The characters that continue a keyword.
pub open spec fn keyword_class() -> spec_fn(char) -> bool {
    |c: char| char_is_uppercase(c)
}

/// The characters that continue a name.
pub open spec fn name_class() -> spec_fn(char) -> bool {
    |c: char| char_is_alphanumeric(c) || c == '_'
}

/// The characters that continue a number.
pub open spec fn number_class() -> spec_fn(char) -> bool {
    |c: char| is_digit(c) || c == '.'
}

/// A run ends inside the text, holds only characters of its class, and
/// cannot be extended.
pub proof fn lemma_run_end(s: Seq<char>, pos: int, class: spec_fn(char) -> bool)
    requires
        0 <= pos <= s.len(),
    ensures
        pos <= run_end(s, pos, class) <= s.len(),
        forall|i: int| pos <= i < run_end(s, pos, class) ==> class(#[trigger] s[i]),
        run_end(s, pos, class) < s.len() ==> !class(s[run_end(s, pos, class)]),
    decreases s.len() - pos,
{
    if pos < s.len() && class(s[pos]) {
        lemma_run_end(s, pos + 1, class);
    }
}

/// The body of a string literal whose opening quote stands just before
/// `pos`: its text with the escapes `\"` and `\\` resolved, and the position
/// after the closing quote. `None` when the text ends before the literal does.
pub open spec fn strlit_scan(s: Seq<char>, pos: int) -> Option<(Seq<char>, int)>
    decreases s.len() - pos,
{
    if pos < 0 || pos >= s.len() {
        None
    } else if s[pos] == '"' {
        Some((Seq::empty(), pos + 1))
    } else {
        let escaped = s[pos] == '\\' && pos + 1 < s.len() && (s[pos + 1] == '"' || s[pos + 1]
            == '\\');
        let taken = if escaped {
            s[pos + 1]
        } else {
            s[pos]
        };
        let after = if escaped {
            pos + 2
        } else {
            pos + 1
        };
        match strlit_scan(s, after) {
            Some((text, next)) => Some((seq![taken] + text, next)),
            None => None,
        }
    }
}

/// The keyword that `word` spells, or the name `word`.
pub open spec fn keyword_of(word: Seq<char>) -> TokenView {
    if word == "IF"@ {
        TokenView::If
    } else if word == "THEN"@ {
        TokenView::Then
    } else if word == "ENDIF"@ {
        TokenView::EndIf
    } else if word == "WHILE"@ {
        TokenView::While
    } else if word == "ENDWHILE"@ {
        TokenView::EndWhile
    } else if word == "PRINT"@ {
        TokenView::Print
    } else if word == "INPUT"@ {
        TokenView::Input
    } else if word == "REPEAT"@ {
        TokenView::Repeat
    } else if word == "LET"@ {
        TokenView::Let
    } else if word == "LABEL"@ {
        TokenView::Label
    } else if word == "GOTO"@ {
        TokenView::Goto
    } else {
        TokenView::Ident(word)
    }
}

/// Whether `text` is made of digits and decimal points and starts with a digit.
pub open spec fn is_number_text(text: Seq<char>) -> bool {
    &&& text.len() > 0
    &&& is_digit(text[0])
    &&& forall|i: int| 0 <= i < text.len() ==> is_digit(#[trigger] text[i]) || text[i] == '.'
}

/// The token that `text` stands for as a number. Only a text of digits
/// and decimal points that starts with a digit stands for one. Without a
/// decimal point it is an integer, and no token where the integer does not
/// fit in 32 bits. With exactly one decimal point it is a float literal,
/// with more it is invalid.
pub open spec fn number_of(text: Seq<char>) -> Option<TokenView> {
    let points = occurrences(text, '.');
    if !is_number_text(text) {
        None
    } else if points == 0 {
        match decimal_of(text) {
            Some(value) => Some(TokenView::Int(value)),
            None => None,
        }
    } else if points == 1 {
        Some(TokenView::Float(text))
    } else {
        Some(TokenView::Invalid(text))
    }
}

/// The keyword rule: an uppercase `first` starts a run of uppercase
/// characters, which spells a keyword or a name.
pub open spec fn keyword_scan(first: char, s: Seq<char>, pos: int) -> Scanned {
    if char_is_uppercase(first) {
        let end = run_end(s, pos, keyword_class());
        Scanned { token: Some(keyword_of(seq![first] + s.subrange(pos, end))), next: end }
    } else {
        Scanned { token: None, next: pos }
    }
}

/// The name rule: an alphabetic `first` starts a run of alphanumeric
/// characters and underscores.
pub open spec fn ident_scan(first: char, s: Seq<char>, pos: int) -> Scanned {
    if char_is_alphabetic(first) {
        let end = run_end(s, pos, name_class());
        Scanned { token: Some(TokenView::Ident(seq![first] + s.subrange(pos, end))), next: end }
    } else {
        Scanned { token: None, next: pos }
    }
}

/// The number rule: a digit `first` starts a run of digits and decimal points.
pub open spec fn number_scan(first: char, s: Seq<char>, pos: int) -> Scanned {
    if is_digit(first) {
        let end = run_end(s, pos, number_class());
        Scanned { token: number_of(seq![first] + s.subrange(pos, end)), next: end }
    } else {
        Scanned { token: None, next: pos }
    }
}

/// Collects `chars` into a string.
pub fn string_from_chars(chars: &Vec<char>) -> (text: String)
    ensures
        text@ == chars@,
{
    let mut text = String::new();
    let mut i: usize = 0;
    while i < chars.len()
        invariant
            i <= chars.len(),
            text@ == chars@.take(i as int),
        decreases chars.len() - i,
    {
        text.push(chars[i]);
        assert(chars@.take(i + 1) =~= chars@.take(i as int).push(chars@[i as int]));
        i += 1;
    }
    assert(chars@.take(chars.len() as int) =~= chars@);
    text
}

/// The keyword that `word` spells, or else the name `word`.
pub fn keyword_token(word: String) -> (token: Token)
    ensures
        token@ == keyword_of(word@),
{
    if word.as_str().eq("IF") {
        Token::If
    } else if word.as_str().eq("THEN") {
        Token::Then
    } else if word.as_str().eq("ENDIF") {
        Token::EndIf
    } else if word.as_str().eq("WHILE") {
        Token::While
    } else if word.as_str().eq("ENDWHILE") {
        Token::EndWhile
    } else if word.as_str().eq("PRINT") {
        Token::Print
    } else if word.as_str().eq("INPUT") {
        Token::Input
    } else if word.as_str().eq("REPEAT") {
        Token::Repeat
    } else if word.as_str().eq("LET") {
        Token::Let
    } else if word.as_str().eq("LABEL") {
        Token::Label
    } else if word.as_str().eq("GOTO") {
        Token::Goto
    } else {
        Token::Ident(word)
    }
}

/// The token that `text` stands for as a number, if it stands for one.
pub fn number_token(text: &Vec<char>) -> (token: Option<Token>)
    ensures
        token.deep_view() == number_of(text@),
{
    if text.len() == 0 || !char_is_digit(text[0]) {
        return None;
    }
    let mut points: usize = 0;
    let mut i: usize = 0;
    while i < text.len()
        invariant
            i <= text.len(),
            points <= i,
            points == occurrences(text@.take(i as int), '.'),
            forall|j: int| 0 <= j < i ==> is_digit(#[trigger] text@[j]) || text@[j] == '.',
        decreases text.len() - i,
    {
        assert(text@.take(i + 1).drop_last() =~= text@.take(i as int));
        if text[i] == '.' {
            points += 1;
        } else if !char_is_digit(text[i]) {
            return None;
        }
        i += 1;
    }
    assert(text@.take(text.len() as int) =~= text@);
    if points == 0 {
        match parse_decimal(text) {
            Some(value) => Some(Token::Int(value)),
            None => None,
        }
    } else if points == 1 {
        Some(Token::Float(string_from_chars(text)))
    } else {
        Some(Token::Invalid(string_from_chars(text)))
    }
}

/// Reads the rest of a string literal, after its opening quote.
pub fn parse_strlit(input: &mut CharStream) -> (result: Result<Token, LexError>)
    ensures
        final(input).source() == old(input).source(),
        match strlit_scan(old(input).source(), old(input).position()) {
            Some((text, next)) => result.is_ok() && result.unwrap()@ == TokenView::StrLit(text)
                && final(input).position() == next,
            None => result == Err::<Token, LexError>(LexError::UnterminatedString)
                && final(input).position() == old(input).source().len(),
        },
{
    let mut strlit = String::new();
    let ghost s = input.source();
    let ghost start = input.position();
    proof {
        use_type_invariant(&*input);
    }
    loop
        invariant
            s == old(input).source(),
            start == old(input).position(),
            input.source() == s,
            0 <= start <= input.position() <= s.len(),
            strlit_scan(s, start) == match strlit_scan(s, input.position()) {
                Some((text, next)) => Some((strlit@ + text, next)),
                None => None,
            },
        decreases s.len() - input.position(),
    {
        let ghost before = strlit@;
        let ghost pos = input.position();
        match input.next() {
            None => {
                return Err(LexError::UnterminatedString);
            },
            Some(chr) => {
                if chr == '"' {
                    assert(strlit@ + Seq::<char>::empty() =~= strlit@);
                    return Ok(Token::StrLit(strlit));
                }
                let mut taken = chr;
                if chr == '\\' {
                    match input.peek() {
                        Some(escaped) => {
                            if escaped == '"' || escaped == '\\' {
                                let _ = input.next();
                                taken = escaped;
                            }
                        },
                        None => {},
                    }
                }
                strlit.push(taken);
                proof {
                    match strlit_scan(s, input.position()) {
                        Some((text, next)) => {
                            assert(before + (seq![taken] + text) =~= strlit@ + text);
                        },
                        None => {},
                    }
                }
            },
        }
    }
}

/// Reads a keyword, or a name written in capitals, that starts with `first`.
pub fn parse_keyword(first: char, input: &mut CharStream) -> (token: Option<Token>)
    ensures
        final(input).source() == old(input).source(),
        token.deep_view() == keyword_scan(
            first,
            old(input).source(),
            old(input).position(),
        ).token,
        final(input).position() == keyword_scan(
            first,
            old(input).source(),
            old(input).position(),
        ).next,
{
    if !first.is_uppercase() {
        return None;
    }
    let mut keyword = String::new();
    keyword.push(first);
    let ghost s = input.source();
    let ghost start = input.position();
    proof {
        use_type_invariant(&*input);
        assert(s.subrange(start, start) =~= Seq::<char>::empty());
    }
    loop
        invariant
            input.source() == s,
            0 <= start <= input.position() <= s.len(),
            keyword@ == seq![first] + s.subrange(start, input.position()),
            run_end(s, start, keyword_class()) == run_end(s, input.position(), keyword_class()),
        ensures
            input.position() == run_end(s, start, keyword_class()),
        decreases s.len() - input.position(),
    {
        let ghost pos = input.position();
        match input.peek() {
            Some(next) => {
                if next.is_uppercase() {
                    let _ = input.next();
                    keyword.push(next);
                    assert(s.subrange(start, pos + 1) =~= s.subrange(start, pos).push(s[pos]));
                } else {
                    break ;
                }
            },
            None => {
                break ;
            },
        }
    }
    Some(keyword_token(keyword))
}

/// Reads a name that starts with `first`.
pub fn parse_ident(first: char, input: &mut CharStream) -> (token: Option<Token>)
    ensures
        final(input).source() == old(input).source(),
        token.deep_view() == ident_scan(first, old(input).source(), old(input).position()).token,
        final(input).position() == ident_scan(
            first,
            old(input).source(),
            old(input).position(),
        ).next,
{
    if !first.is_alphabetic() {
        return None;
    }
    let mut matched = String::new();
    matched.push(first);
    let ghost s = input.source();
    let ghost start = input.position();
    proof {
        use_type_invariant(&*input);
        assert(s.subrange(start, start) =~= Seq::<char>::empty());
    }
    loop
        invariant
            input.source() == s,
            0 <= start <= input.position() <= s.len(),
            matched@ == seq![first] + s.subrange(start, input.position()),
            run_end(s, start, name_class()) == run_end(s, input.position(), name_class()),
        ensures
            input.position() == run_end(s, start, name_class()),
        decreases s.len() - input.position(),
    {
        let ghost pos = input.position();
        match input.peek() {
            Some(next) => {
                if next.is_alphanumeric() || next == '_' {
                    let _ = input.next();
                    matched.push(next);
                    assert(s.subrange(start, pos + 1) =~= s.subrange(start, pos).push(s[pos]));
                } else {
                    break ;
                }
            },
            None => {
                break ;
            },
        }
    }
    Some(Token::Ident(matched))
}

/// Reads an integer or a number with a decimal point that starts with `first`.
pub fn parse_num(first: char, input: &mut CharStream) -> (token: Option<Token>)
    ensures
        final(input).source() == old(input).source(),
        token.deep_view() == number_scan(
            first,
            old(input).source(),
            old(input).position(),
        ).token,
        final(input).position() == number_scan(
            first,
            old(input).source(),
            old(input).position(),
        ).next,
{
    if !char_is_digit(first) {
        return None;
    }
    let mut digits: Vec<char> = Vec::new();
    digits.push(first);
    let ghost s = input.source();
    let ghost start = input.position();
    proof {
        use_type_invariant(&*input);
        assert(s.subrange(start, start) =~= Seq::<char>::empty());
        assert(digits@ =~= seq![first] + s.subrange(start, start));
    }
    loop
        invariant
            input.source() == s,
            0 <= start <= input.position() <= s.len(),
            digits@ == seq![first] + s.subrange(start, input.position()),
            is_number_text(digits@),
            run_end(s, start, number_class()) == run_end(s, input.position(), number_class()),
        ensures
            input.position() == run_end(s, start, number_class()),
        decreases s.len() - input.position(),
    {
        let ghost pos = input.position();
        match input.peek() {
            Some(next) => {
                if char_is_digit(next) || next == '.' {
                    let _ = input.next();
                    digits.push(next);
                    assert(s.subrange(start, pos + 1) =~= s.subrange(start, pos).push(s[pos]));
                } else {
                    break ;
                }
            },
            None => {
                break ;
            },
        }
    }
    number_token(&digits)
}

/// A one-character token at `pos`.
pub open spec fn single(token: TokenView, pos: int) -> Scanned {
    Scanned { token: Some(token), next: pos + 1 }
}

/// The token `with_equals` when an equals sign follows the character at
/// `pos`, and `alone` otherwise.
pub open spec fn with_or_without_equals(
    s: Seq<char>,
    pos: int,
    with_equals: TokenView,
    alone: TokenView,
) -> Scanned {
    if pos + 1 < s.len() && s[pos + 1] == '=' {
        Scanned { token: Some(with_equals), next: pos + 2 }
    } else {
        Scanned { token: Some(alone), next: pos + 1 }
    }
}

/// What a character that is no operator, blank or quote starts: the keyword
/// rule is tried first, then the name rule, then the number rule. Where
/// none gives a token, the character alone is an invalid token, and what the
/// number rule took stays taken.
pub open spec fn word_scan(first: char, s: Seq<char>, pos: int) -> Scanned {
    let keyword = keyword_scan(first, s, pos);
    let ident = ident_scan(first, s, pos);
    let number = number_scan(first, s, pos);
    if keyword.token is Some {
        keyword
    } else if ident.token is Some {
        ident
    } else if number.token is Some {
        number
    } else {
        Scanned { token: Some(TokenView::Invalid(seq![first])), next: number.next }
    }
}

/// One step of the lexer at `pos`: the token that starts there, if the
/// characters there make one, and where the next step starts.
pub open spec fn lex_step(s: Seq<char>, pos: int) -> Result<Scanned, LexError>
    recommends
        0 <= pos < s.len(),
{
    let c = s[pos];
    if c == '+' {
        Ok(single(TokenView::Add, pos))
    } else if c == '-' {
        Ok(single(TokenView::Sub, pos))
    } else if c == '*' {
        Ok(single(TokenView::Mul, pos))
    } else if c == '/' {
        Ok(single(TokenView::Div, pos))
    } else if c == '\n' {
        Ok(single(TokenView::NewLine, pos))
    } else if c == ' ' || c == '\t' {
        Ok(Scanned { token: None, next: pos + 1 })
    } else if c == '=' {
        Ok(with_or_without_equals(s, pos, TokenView::Equals, TokenView::Assign))
    } else if c == '>' {
        Ok(with_or_without_equals(s, pos, TokenView::Gte, TokenView::Gt))
    } else if c == '<' {
        Ok(with_or_without_equals(s, pos, TokenView::Lte, TokenView::Lt))
    } else if c == '!' && pos + 1 < s.len() && s[pos + 1] == '=' {
        Ok(Scanned { token: Some(TokenView::NotEquals), next: pos + 2 })
    } else if c == '"' {
        match strlit_scan(s, pos + 1) {
            Some((text, next)) => Ok(Scanned { token: Some(TokenView::StrLit(text)), next }),
            None => Err(LexError::UnterminatedString),
        }
    } else {
        Ok(word_scan(c, s, pos + 1))
    }
}

/// A string literal ends inside the text, after where it started.
pub proof fn lemma_strlit_scan_advances(s: Seq<char>, pos: int)
    requires
        0 <= pos <= s.len(),
    ensures
        strlit_scan(s, pos) matches Some((_, next)) ==> pos < next <= s.len(),
    decreases s.len() - pos,
{
    if pos < s.len() && s[pos] != '"' {
        let escaped = s[pos] == '\\' && pos + 1 < s.len() && (s[pos + 1] == '"' || s[pos + 1]
            == '\\');
        if escaped {
            lemma_strlit_scan_advances(s, pos + 2);
        } else {
            lemma_strlit_scan_advances(s, pos + 1);
        }
    }
}

/// Every step of the lexer takes at least one character and stays inside
/// the text.
pub proof fn lemma_lex_step_advances(s: Seq<char>, pos: int)
    requires
        0 <= pos < s.len(),
    ensures
        lex_step(s, pos) matches Ok(step) ==> pos < step.next <= s.len(),
{
    lemma_strlit_scan_advances(s, pos + 1);
    lemma_run_end(s, pos + 1, keyword_class());
    lemma_run_end(s, pos + 1, name_class());
    lemma_run_end(s, pos + 1, number_class());
}

/// The tokens of the text from `pos` on.
pub open spec fn lex_from(s: Seq<char>, pos: int) -> Result<Seq<TokenView>, LexError>
    decreases s.len() - pos,
{
    if pos < 0 || pos >= s.len() {
        Ok(Seq::empty())
    } else {
        match lex_step(s, pos) {
            Err(e) => Err(e),
            Ok(step) => {
                proof {
                    lemma_lex_step_advances(s, pos);
                }
                match lex_from(s, step.next) {
                    Err(e) => Err(e),
                    Ok(rest) => Ok(
                        match step.token {
                            Some(token) => seq![token] + rest,
                            None => rest,
                        },
                    ),
                }
            },
        }
    }
}

/// The tokens of a source text, or the error that stops the lexer.
pub open spec fn lex(s: Seq<char>) -> Result<Seq<TokenView>, LexError> {
    lex_from(s, 0)
}

/// Splits a source text into its tokens. The only error is a string literal
/// that the text ends in; characters that fit no rule become invalid tokens.
pub fn lex_source(input: &str) -> (result: Result<Vec<Token>, LexError>)
    ensures
        match lex(input@) {
            Ok(tokens) => result.is_ok() && result.unwrap().deep_view() == tokens,
            Err(e) => result == Err::<Vec<Token>, LexError>(e),
        },
{
    let mut tokens: Vec<Token> = Vec::new();
    let mut chars = CharStream::new(input);
    let ghost s = input@;
    proof {
        assert(tokens.deep_view() =~= Seq::<TokenView>::empty());
        match lex_from(s, 0) {
            Ok(rest) => {
                assert(tokens.deep_view() + rest =~= rest);
            },
            Err(_) => {},
        }
    }
    loop
        invariant
            s == input@,
            chars.source() == s,
            lex(s) == match lex_from(s, chars.position()) {
                Ok(rest) => Ok(tokens.deep_view() + rest),
                Err(e) => Err(e),
            },
        decreases s.len() - chars.position(),
    {
        let ghost pos = chars.position();
        let ghost before = tokens.deep_view();
        let next = match chars.next() {
            Some(next) => next,
            None => {
                assert(before + Seq::<TokenView>::empty() =~= before);
                return Ok(tokens);
            },
        };
        proof {
            lemma_lex_step_advances(s, pos);
        }
        let token: Option<Token> = if next == '+' {
            Some(Token::Add)
        } else if next == '-' {
            Some(Token::Sub)
        } else if next == '*' {
            Some(Token::Mul)
        } else if next == '/' {
            Some(Token::Div)
        } else if next == '\n' {
            Some(Token::NewLine)
        } else if next == ' ' || next == '\t' {
            None
        } else if next == '=' || next == '>' || next == '<' {
            let followed = match chars.peek() {
                Some(second) => second == '=',
                None => false,
            };
            if followed {
                let _ = chars.next();
            }
            if next == '=' {
                Some(if followed { Token::Equals } else { Token::Assign })
            } else if next == '>' {
                Some(if followed { Token::Gte } else { Token::Gt })
            } else {
                Some(if followed { Token::Lte } else { Token::Lt })
            }
        } else if next == '!' && chars.peek() == Some('=') {
            let _ = chars.next();
            Some(Token::NotEquals)
        } else if next == '"' {
            match parse_strlit(&mut chars) {
                Ok(token) => Some(token),
                Err(e) => {
                    return Err(e);
                },
            }
        } else if let Some(token) = parse_keyword(next, &mut chars) {
            Some(token)
        } else if let Some(token) = parse_ident(next, &mut chars) {
            Some(token)
        } else if let Some(token) = parse_num(next, &mut chars) {
            Some(token)
        } else {
            let mut text = String::new();
            text.push(next);
            Some(Token::Invalid(text))
        };
        assert(lex_step(s, pos) == Ok::<Scanned, LexError>(
            Scanned { token: token.deep_view(), next: chars.position() },
        ));
        if let Some(token) = token {
            tokens.push(token);
        }
        proof {
            match lex_from(s, chars.position()) {
                Ok(rest) => {
                    match token.deep_view() {
                        Some(t) => {
                            assert(tokens.deep_view() =~= before.push(t));
                            assert(before + (seq![t] + rest) =~= tokens.deep_view() + rest);
                        },
                        None => {
                            assert(tokens.deep_view() =~= before);
                        },
                    }
                },
                Err(_) => {},
            }
        }
    }
}

} // verus!
