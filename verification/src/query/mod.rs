//! The query language: CSS-like selectors over the Markdown syntax tree.
use vstd::prelude::*;
use vstd::string::StringExecFns;
use crate::lexer::{lemma_scan_to, scan_to};
use crate::text::{copy_range, is_digit, push_str, str_chars, string_from_chars};

pub mod executor;
pub mod properties;

verus! {

/// Whether `char::is_alphabetic` holds of `c` (Unicode `Alphabetic`).
pub uninterp spec fn char_alphabetic(c: char) -> bool;

/// Whether `char::is_alphanumeric` holds of `c` (Unicode `Alphabetic` or `Numeric`).
pub uninterp spec fn char_alphanumeric(c: char) -> bool;

/// Calls `char::is_alphabetic`; its result is named `char_alphabetic`.
#[verifier::external_body]
fn is_alphabetic(c: char) -> (b: bool)
    ensures
        b == char_alphabetic(c),
{
    c.is_alphabetic()
}

/// Calls `char::is_alphanumeric`; its result is named `char_alphanumeric`. The
/// standard library documents it as `is_alphabetic() || is_numeric()`, so it
/// holds of every alphabetic character.
#[verifier::external_body]
fn is_alphanumeric(c: char) -> (b: bool)
    ensures
        b == char_alphanumeric(c),
        char_alphabetic(c) ==> b,
{
    c.is_alphanumeric()
}

/// The text that `{:?}` writes for a string (quoted, with escapes).
pub uninterp spec fn str_debug(s: Seq<char>) -> Seq<char>;

/// Formats a string with `{:?}` (`<str as Debug>::fmt`); its result is named `str_debug`.
#[verifier::external_body]
fn debug_str(s: &str) -> (r: String)
    ensures
        r@ == str_debug(s@),
{
    format!("{:?}", s)
}

/// Token of the query language.
#[derive(Debug, Clone, PartialEq)]
pub enum Token {
    /// Node type name or bare value (e.g. `heading`, `2`)
    Ident(String),
    /// Quoted string value
    Quoted(String),
    /// `=`
    Equals,
    /// `*=`, the attribute value contains the given text
    StarEquals,
    /// Child combinator `>`
    Child,
    /// Sibling combinator `+`
    Sibling,
    /// `[`
    LBracket,
    /// `]`
    RBracket,
    /// `|`
    Pipe,
    /// `,` between selectors
    Comma,
    /// End of input
    Eof,
}

/// Model of a [`Token`].
pub enum SToken {
    Ident(Seq<char>),
    Quoted(Seq<char>),
    Equals,
    StarEquals,
    Child,
    Sibling,
    LBracket,
    RBracket,
    Pipe,
    Comma,
    Eof,
}

impl View for Token {
    type V = SToken;

    open spec fn view(&self) -> SToken {
        match self {
            Token::Ident(s) => SToken::Ident(s@),
            Token::Quoted(s) => SToken::Quoted(s@),
            Token::Equals => SToken::Equals,
            Token::StarEquals => SToken::StarEquals,
            Token::Child => SToken::Child,
            Token::Sibling => SToken::Sibling,
            Token::LBracket => SToken::LBracket,
            Token::RBracket => SToken::RBracket,
            Token::Pipe => SToken::Pipe,
            Token::Comma => SToken::Comma,
            Token::Eof => SToken::Eof,
        }
    }
}

pub open spec fn tokens_view(s: Seq<Token>) -> Seq<SToken> {
    Seq::new(s.len(), |i: int| s[i]@)
}

/// The text that `{:?}` writes for a token.
pub open spec fn token_debug(t: SToken) -> Seq<char> {
    match t {
        SToken::Ident(s) => "Ident("@ + str_debug(s) + ")"@,
        SToken::Quoted(s) => "Quoted("@ + str_debug(s) + ")"@,
        SToken::Equals => "Equals"@,
        SToken::StarEquals => "StarEquals"@,
        SToken::Child => "Child"@,
        SToken::Sibling => "Sibling"@,
        SToken::LBracket => "LBracket"@,
        SToken::RBracket => "RBracket"@,
        SToken::Pipe => "Pipe"@,
        SToken::Comma => "Comma"@,
        SToken::Eof => "Eof"@,
    }
}

/// Appends the `{:?}` text of a token.
fn push_token_debug(out: &mut Vec<char>, t: &Token)
    ensures
        final(out)@ == old(out)@ + token_debug(t@),
{
    match t {
        Token::Ident(s) => {
            push_str(out, "Ident(");
            let d = debug_str(s.as_str());
            push_str(out, d.as_str());
            push_str(out, ")");
            assert(final(out)@ =~= old(out)@ + token_debug(t@));
        },
        Token::Quoted(s) => {
            push_str(out, "Quoted(");
            let d = debug_str(s.as_str());
            push_str(out, d.as_str());
            push_str(out, ")");
            assert(final(out)@ =~= old(out)@ + token_debug(t@));
        },
        Token::Equals => push_str(out, "Equals"),
        Token::StarEquals => push_str(out, "StarEquals"),
        Token::Child => push_str(out, "Child"),
        Token::Sibling => push_str(out, "Sibling"),
        Token::LBracket => push_str(out, "LBracket"),
        Token::RBracket => push_str(out, "RBracket"),
        Token::Pipe => push_str(out, "Pipe"),
        Token::Comma => push_str(out, "Comma"),
        Token::Eof => push_str(out, "Eof"),
    }
}

// ---------------------------------------------------------------------------
// Lexer
// ---------------------------------------------------------------------------

/// End of an identifier whose characters from `i` on are alphanumeric, `'_'` or `'-'`.
pub open spec fn ident_end(c: Seq<char>, i: int) -> int
    decreases c.len() - i,
{
    if 0 <= i < c.len() && (char_alphanumeric(c[i]) || c[i] == '_' || c[i] == '-') {
        ident_end(c, i + 1)
    } else {
        i
    }
}

/// End of a number: digits and dots from `i` on.
pub open spec fn num_end(c: Seq<char>, i: int) -> int
    decreases c.len() - i,
{
    if 0 <= i < c.len() && (is_digit(c[i]) || c[i] == '.') {
        num_end(c, i + 1)
    } else {
        i
    }
}

pub proof fn lemma_ident_end(c: Seq<char>, i: int)
    requires
        0 <= i <= c.len(),
    ensures
        i <= ident_end(c, i) <= c.len(),
    decreases c.len() - i,
{
    if i < c.len() && (char_alphanumeric(c[i]) || c[i] == '_' || c[i] == '-') {
        lemma_ident_end(c, i + 1);
    }
}

pub proof fn lemma_num_end(c: Seq<char>, i: int)
    requires
        0 <= i <= c.len(),
    ensures
        i <= num_end(c, i) <= c.len(),
    decreases c.len() - i,
{
    if i < c.len() && (is_digit(c[i]) || c[i] == '.') {
        lemma_num_end(c, i + 1);
    }
}

/// First position at or after `i` that holds no space or tab.
pub open spec fn skip_blank(c: Seq<char>, i: int) -> int
    decreases c.len() - i,
{
    if 0 <= i < c.len() && (c[i] == ' ' || c[i] == '\t') {
        skip_blank(c, i + 1)
    } else {
        i
    }
}

/// Whether a character ends an unquoted attribute value (or cannot start
/// one): a blank, a quote, or a character that is a token of its own.
pub open spec fn value_stop(ch: char) -> bool {
    ch == ' ' || ch == '\t' || ch == '"' || ch == '\'' || ch == '[' || ch == ']' || ch == ',' || ch == '('
        || ch == ')' || ch == '>' || ch == '+' || ch == '|' || ch == '='
}

/// End of an unquoted attribute value: the first character at or after `i`
/// that `value_stop` holds of.
pub open spec fn value_end(c: Seq<char>, i: int) -> int
    decreases c.len() - i,
{
    if 0 <= i < c.len() && !value_stop(c[i]) {
        value_end(c, i + 1)
    } else {
        i
    }
}

/// What follows `=` or `*=` when lexing goes on at `i`: blanks are skipped, an
/// unquoted value (such as `https://example.com`, up to a character that
/// `value_stop` holds of) is one `Ident` token; also the position where
/// lexing goes on.
pub open spec fn value_part(c: Seq<char>, i: int) -> (Seq<SToken>, int) {
    let k = skip_blank(c, i);
    if 0 <= k < c.len() && !value_stop(c[k]) {
        (seq![SToken::Ident(c.subrange(k, value_end(c, k)))], value_end(c, k))
    } else {
        (Seq::empty(), k)
    }
}

pub proof fn lemma_value_part(c: Seq<char>, i: int)
    requires
        0 <= i <= c.len(),
    ensures
        i <= value_part(c, i).1 <= c.len(),
{
    lemma_skip_blank(c, i);
    let k = skip_blank(c, i);
    if k < c.len() {
        lemma_value_end(c, k);
    }
}

proof fn lemma_skip_blank(c: Seq<char>, i: int)
    requires
        0 <= i <= c.len(),
    ensures
        i <= skip_blank(c, i) <= c.len(),
    decreases c.len() - i,
{
    if i < c.len() && (c[i] == ' ' || c[i] == '\t') {
        lemma_skip_blank(c, i + 1);
    }
}

proof fn lemma_value_end(c: Seq<char>, i: int)
    requires
        0 <= i <= c.len(),
    ensures
        i <= value_end(c, i) <= c.len(),
    decreases c.len() - i,
{
    if i < c.len() && !value_stop(c[i]) {
        lemma_value_end(c, i + 1);
    }
}

pub open spec fn tcons(t: SToken, r: Result<Seq<SToken>, Seq<char>>) -> Result<Seq<SToken>, Seq<char>> {
    match r {
        Ok(s) => Ok(seq![t] + s),
        Err(e) => Err(e),
    }
}

/// Lexing of a query from position `i`.
pub open spec fn lex_from(c: Seq<char>, i: int) -> Result<Seq<SToken>, Seq<char>>
    decreases c.len() - i,
{
    if i < 0 || i >= c.len() {
        Ok(seq![SToken::Eof])
    } else {
        let ch = c[i];
        if ch == ' ' || ch == '\t' || ch == '(' || ch == ')' {
            lex_from(c, i + 1)
        } else if ch == '>' {
            tcons(SToken::Child, lex_from(c, i + 1))
        } else if ch == '+' {
            tcons(SToken::Sibling, lex_from(c, i + 1))
        } else if ch == '[' {
            tcons(SToken::LBracket, lex_from(c, i + 1))
        } else if ch == ']' {
            tcons(SToken::RBracket, lex_from(c, i + 1))
        } else if ch == '|' {
            tcons(SToken::Pipe, lex_from(c, i + 1))
        } else if ch == ',' {
            tcons(SToken::Comma, lex_from(c, i + 1))
        } else if ch == '=' {
            proof {
                lemma_value_part(c, i + 1);
            }
            tcons(SToken::Equals, tcat(value_part(c, i + 1).0, lex_from(c, value_part(c, i + 1).1)))
        } else if ch == '*' && i + 1 < c.len() && c[i + 1] == '=' {
            proof {
                lemma_value_part(c, i + 2);
            }
            tcons(SToken::StarEquals, tcat(value_part(c, i + 2).0, lex_from(c, value_part(c, i + 2).1)))
        } else if ch == '"' || ch == '\'' {
            let j = scan_to(c, i + 1, ch);
            proof {
                lemma_scan_to(c, i + 1, ch);
            }
            if j < c.len() {
                tcons(SToken::Quoted(c.subrange(i + 1, j)), lex_from(c, j + 1))
            } else {
                Err("Unterminated string in query"@)
            }
        } else if char_alphabetic(ch) || ch == '_' {
            let j = ident_end(c, i + 1);
            proof {
                lemma_ident_end(c, i + 1);
            }
            tcons(SToken::Ident(c.subrange(i, j)), lex_from(c, j))
        } else if is_digit(ch) {
            let j = num_end(c, i + 1);
            proof {
                lemma_num_end(c, i + 1);
            }
            tcons(SToken::Ident(c.subrange(i, j)), lex_from(c, j))
        } else {
            Err("Unexpected character: '"@ + seq![ch] + "'"@)
        }
    }
}

/// The tokens of a query, ending with `Eof`, or the lexing error.
pub open spec fn lex(c: Seq<char>) -> Result<Seq<SToken>, Seq<char>> {
    lex_from(c, 0)
}

pub open spec fn tokens_result_view(r: Result<Vec<Token>, String>) -> Result<Seq<SToken>, Seq<char>> {
    match r {
        Ok(v) => Ok(tokens_view(v@)),
        Err(e) => Err(e@),
    }
}

pub open spec fn tcat(a: Seq<SToken>, r: Result<Seq<SToken>, Seq<char>>) -> Result<Seq<SToken>, Seq<char>> {
    match r {
        Ok(s) => Ok(a + s),
        Err(e) => Err(e),
    }
}

proof fn lemma_tcat_push(a: Seq<SToken>, t: SToken, r: Result<Seq<SToken>, Seq<char>>)
    ensures
        tcat(a, tcons(t, r)) == tcat(a.push(t), r),
{
    match r {
        Ok(s) => {
            assert(a + (seq![t] + s) =~= a.push(t) + s);
        },
        Err(_) => {},
    }
}

proof fn lemma_tcat_assoc(a: Seq<SToken>, b: Seq<SToken>, r: Result<Seq<SToken>, Seq<char>>)
    ensures
        tcat(a, tcat(b, r)) == tcat(a + b, r),
{
    match r {
        Ok(s) => {
            assert(a + (b + s) =~= (a + b) + s);
        },
        Err(_) => {},
    }
}

/// Exec counterpart of `value_stop`.
fn is_value_stop(ch: char) -> (b: bool)
    ensures
        b == value_stop(ch),
{
    ch == ' ' || ch == '\t' || ch == '"' || ch == '\'' || ch == '[' || ch == ']' || ch == ',' || ch == '('
        || ch == ')' || ch == '>' || ch == '+' || ch == '|' || ch == '='
}

/// Lexes what follows `=` or `*=` (see `value_part`); returns where lexing goes on.
fn lex_value(c: &[char], i: usize, tokens: &mut Vec<Token>) -> (n: usize)
    requires
        i <= c@.len(),
    ensures
        tokens_view(final(tokens)@) == tokens_view(old(tokens)@) + value_part(c@, i as int).0,
        n == value_part(c@, i as int).1,
        i <= n <= c@.len(),
{
    let len = c.len();
    let mut k = i;
    while k < len && (c[k] == ' ' || c[k] == '\t')
        invariant
            i <= k <= len,
            len == c@.len(),
            skip_blank(c@, i as int) == skip_blank(c@, k as int),
        decreases len - k,
    {
        k = k + 1;
    }
    proof {
        lemma_value_part(c@, i as int);
    }
    if k < len && !is_value_stop(c[k]) {
        let mut j = k;
        while j < len && !is_value_stop(c[j])
            invariant
                k <= j <= len,
                len == c@.len(),
                value_end(c@, k as int) == value_end(c@, j as int),
            decreases len - j,
        {
            j = j + 1;
        }
        let v = copy_range(c, k, j);
        let t = Token::Ident(string_from_chars(v.as_slice()));
        let ghost before = tokens_view(tokens@);
        push_token(tokens, t);
        assert(before.push(t@) =~= before + seq![t@]);
        j
    } else {
        assert(tokens_view(tokens@) + Seq::<SToken>::empty() =~= tokens_view(tokens@));
        k
    }
}

fn push_token(v: &mut Vec<Token>, t: Token)
    ensures
        tokens_view(final(v)@) == tokens_view(old(v)@).push(t@),
{
    v.push(t);
    assert(tokens_view(final(v)@) =~= tokens_view(old(v)@).push(t@));
}

/// Lexes a query string into tokens, ending with `Token::Eof`.
pub fn lex_query(input: &str) -> (r: Result<Vec<Token>, String>)
    ensures
        tokens_result_view(r) == lex(input@),
{
    let chars = str_chars(input);
    let c = chars.as_slice();
    let len = c.len();
    let mut tokens: Vec<Token> = Vec::new();
    let mut i: usize = 0;
    proof {
        match lex(c@) {
            Ok(s) => { assert(tokens_view(tokens@) + s =~= s); },
            Err(_) => {},
        }
    }
    while i < len
        invariant
            len == c@.len(),
            c@ == input@,
            i <= len,
            tcat(tokens_view(tokens@), lex_from(c@, i as int)) == lex(c@),
        decreases len - i,
    {
        let ch = c[i];
        let ghost prev = tokens_view(tokens@);
        let ghost gi = i as int;
        if ch == ' ' || ch == '\t' || ch == '(' || ch == ')' {
            i = i + 1;
        } else if ch == '=' || (ch == '*' && len - i > 1 && c[i + 1] == '=') {
            let (t, at) = if ch == '=' {
                (Token::Equals, i + 1)
            } else {
                (Token::StarEquals, i + 2)
            };
            proof {
                lemma_value_part(c@, at as int);
                lemma_tcat_push(prev, t@, tcat(value_part(c@, at as int).0, lex_from(c@, value_part(c@, at as int).1)));
            }
            push_token(&mut tokens, t);
            let ghost mid = tokens_view(tokens@);
            i = lex_value(c, at, &mut tokens);
            proof {
                lemma_tcat_assoc(mid, value_part(c@, at as int).0, lex_from(c@, i as int));
            }
        } else if ch == '>' || ch == '+' || ch == '[' || ch == ']' || ch == '|' || ch == ',' {
            let t = if ch == '>' {
                Token::Child
            } else if ch == '+' {
                Token::Sibling
            } else if ch == '[' {
                Token::LBracket
            } else if ch == ']' {
                Token::RBracket
            } else if ch == '|' {
                Token::Pipe
            } else {
                Token::Comma
            };
            proof {
                lemma_tcat_push(prev, t@, lex_from(c@, gi + 1));
            }
            push_token(&mut tokens, t);
            i = i + 1;
        } else if ch == '"' || ch == '\'' {
            let start = i + 1;
            let mut j = start;
            while j < len && c[j] != ch
                invariant
                    start <= j <= len,
                    len == c@.len(),
                    scan_to(c@, start as int, ch) == scan_to(c@, j as int, ch),
                decreases len - j,
            {
                j = j + 1;
            }
            proof {
                lemma_scan_to(c@, start as int, ch);
            }
            if j < len {
                let s = copy_range(c, start, j);
                let t = Token::Quoted(string_from_chars(s.as_slice()));
                proof {
                    lemma_tcat_push(prev, t@, lex_from(c@, j + 1));
                }
                push_token(&mut tokens, t);
                i = j + 1;
            } else {
                return Err(String::from_str("Unterminated string in query"));
            }
        } else if is_alphabetic(ch) || ch == '_' {
            let start = i;
            let mut j = i + 1;
            while j < len && (is_alphanumeric(c[j]) || c[j] == '_' || c[j] == '-')
                invariant
                    start < j <= len,
                    len == c@.len(),
                    ident_end(c@, start + 1) == ident_end(c@, j as int),
                decreases len - j,
            {
                j = j + 1;
            }
            proof {
                lemma_ident_end(c@, start + 1);
            }
            let s = copy_range(c, start, j);
            let t = Token::Ident(string_from_chars(s.as_slice()));
            proof {
                lemma_tcat_push(prev, t@, lex_from(c@, j as int));
            }
            push_token(&mut tokens, t);
            i = j;
        } else if '0' <= ch && ch <= '9' {
            let start = i;
            let mut j = i + 1;
            while j < len && (('0' <= c[j] && c[j] <= '9') || c[j] == '.')
                invariant
                    start < j <= len,
                    len == c@.len(),
                    num_end(c@, start + 1) == num_end(c@, j as int),
                decreases len - j,
            {
                j = j + 1;
            }
            proof {
                lemma_num_end(c@, start + 1);
            }
            let s = copy_range(c, start, j);
            let t = Token::Ident(string_from_chars(s.as_slice()));
            proof {
                lemma_tcat_push(prev, t@, lex_from(c@, j as int));
            }
            push_token(&mut tokens, t);
            i = j;
        } else {
            let mut msg: Vec<char> = Vec::new();
            push_str(&mut msg, "Unexpected character: '");
            msg.push(ch);
            push_str(&mut msg, "'");
            assert(msg@ =~= "Unexpected character: '"@ + seq![ch] + "'"@);
            return Err(string_from_chars(msg.as_slice()));
        }
    }
    let ghost prev = tokens_view(tokens@);
    push_token(&mut tokens, Token::Eof);
    assert(prev.push(SToken::Eof) =~= prev + seq![SToken::Eof]);
    Ok(tokens)
}

// ---------------------------------------------------------------------------
// Selectors
// ---------------------------------------------------------------------------

/// A query selector.
#[derive(Debug)]
pub enum Selector {
    /// Nodes of a type
    Type(String),
    /// Nodes of a type with an attribute value: `type[key=value]`
    WithAttr { node_type: String, key: String, value: String },
    /// Nodes of a type whose attribute value contains a text: `type[key*=value]`
    WithAttrContains { node_type: String, key: String, value: String },
    /// Nodes of a type whose text contains a string: `type[contains("text")]`
    WithContains { node_type: String, text: String },
    /// `parent > child`
    Child { parent: Box<Selector>, child: Box<Selector> },
    /// `ancestor descendant`
    Descendant { ancestor: Box<Selector>, descendant: Box<Selector> },
    /// `before + after`
    Sibling { before: Box<Selector>, after: Box<Selector> },
    /// `a, b, ...`
    Multi(Vec<Selector>),
}

/// Model of a [`Selector`].
pub enum SSel {
    Type(Seq<char>),
    WithAttr { node_type: Seq<char>, key: Seq<char>, value: Seq<char> },
    WithAttrContains { node_type: Seq<char>, key: Seq<char>, value: Seq<char> },
    WithContains { node_type: Seq<char>, text: Seq<char> },
    Child { parent: Box<SSel>, child: Box<SSel> },
    Descendant { ancestor: Box<SSel>, descendant: Box<SSel> },
    Sibling { before: Box<SSel>, after: Box<SSel> },
    Multi(Seq<SSel>),
}

impl View for Selector {
    type V = SSel;

    open spec fn view(&self) -> SSel
        decreases self,
    {
        match self {
            Selector::Type(t) => SSel::Type(t@),
            Selector::WithAttr { node_type, key, value } => SSel::WithAttr {
                node_type: node_type@,
                key: key@,
                value: value@,
            },
            Selector::WithAttrContains { node_type, key, value } => SSel::WithAttrContains {
                node_type: node_type@,
                key: key@,
                value: value@,
            },
            Selector::WithContains { node_type, text } => SSel::WithContains {
                node_type: node_type@,
                text: text@,
            },
            Selector::Child { parent, child } => SSel::Child {
                parent: Box::new((**parent).view()),
                child: Box::new((**child).view()),
            },
            Selector::Descendant { ancestor, descendant } => SSel::Descendant {
                ancestor: Box::new((**ancestor).view()),
                descendant: Box::new((**descendant).view()),
            },
            Selector::Sibling { before, after } => SSel::Sibling {
                before: Box::new((**before).view()),
                after: Box::new((**after).view()),
            },
            Selector::Multi(v) => SSel::Multi(sels_view(v@)),
        }
    }
}

pub open spec fn sels_view(s: Seq<Selector>) -> Seq<SSel>
    decreases s,
{
    if s.len() == 0 {
        Seq::empty()
    } else {
        sels_view(s.drop_last()).push(s.last().view())
    }
}

pub broadcast proof fn lemma_sels_view(s: Seq<Selector>)
    ensures
        #[trigger] sels_view(s).len() == s.len(),
        forall|i: int| 0 <= i < s.len() ==> #[trigger] sels_view(s)[i] == s[i]@,
    decreases s.len(),
{
    if s.len() > 0 {
        lemma_sels_view(s.drop_last());
        assert(sels_view(s) == sels_view(s.drop_last()).push(s.last()@));
    } else {
        assert(sels_view(s) == Seq::<SSel>::empty());
    }
}

/// A copy of a selector.
fn copy_selector(s: &Selector) -> (r: Selector)
    ensures
        r@ == s@,
    decreases s,
{
    match s {
        Selector::Type(t) => Selector::Type(t.clone()),
        Selector::WithAttr { node_type, key, value } => Selector::WithAttr {
            node_type: node_type.clone(),
            key: key.clone(),
            value: value.clone(),
        },
        Selector::WithAttrContains { node_type, key, value } => Selector::WithAttrContains {
            node_type: node_type.clone(),
            key: key.clone(),
            value: value.clone(),
        },
        Selector::WithContains { node_type, text } => Selector::WithContains {
            node_type: node_type.clone(),
            text: text.clone(),
        },
        Selector::Child { parent, child } => Selector::Child {
            parent: Box::new(copy_selector(parent)),
            child: Box::new(copy_selector(child)),
        },
        Selector::Descendant { ancestor, descendant } => Selector::Descendant {
            ancestor: Box::new(copy_selector(ancestor)),
            descendant: Box::new(copy_selector(descendant)),
        },
        Selector::Sibling { before, after } => Selector::Sibling {
            before: Box::new(copy_selector(before)),
            after: Box::new(copy_selector(after)),
        },
        Selector::Multi(v) => Selector::Multi(copy_selectors(v)),
    }
}

/// A copy of a list of selectors.
fn copy_selectors(v: &Vec<Selector>) -> (r: Vec<Selector>)
    ensures
        sels_view(r@) == sels_view(v@),
    decreases v,
{
    let mut out: Vec<Selector> = Vec::new();
    let mut i: usize = 0;
    while i < v.len()
        invariant
            i <= v@.len(),
            sels_view(out@) == sels_view(v@.take(i as int)),
        decreases v@.len() - i,
    {
        assert(decreases_to!(v => v@[i as int]));
        let c = copy_selector(&v[i]);
        proof {
            lemma_sels_view_push(out@, c);
            lemma_sels_view_push(v@.take(i as int), v@[i as int]);
            assert(v@.take(i as int).push(v@[i as int]) =~= v@.take(i + 1));
        }
        out.push(c);
        i = i + 1;
    }
    assert(v@.take(v@.len() as int) =~= v@);
    out
}

impl Clone for Selector {
    fn clone(&self) -> (r: Self)
        ensures
            r@ == self@,
    {
        copy_selector(self)
    }
}

pub open spec fn is_rbracket(toks: Seq<SToken>, p: int) -> bool {
    0 <= p < toks.len() && toks[p] is RBracket
}

/// Position after an optional closing `]`.
pub open spec fn skip_rbracket(toks: Seq<SToken>, p: int) -> int {
    if is_rbracket(toks, p) {
        p + 1
    } else {
        p
    }
}

/// The attribute filter `[key=value]`, or `[key*=value]` where `contains_op` holds.
pub open spec fn attr_sel(node_type: Seq<char>, key: Seq<char>, value: Seq<char>, contains_op: bool) -> SSel {
    if contains_op {
        SSel::WithAttrContains { node_type, key, value }
    } else {
        SSel::WithAttr { node_type, key, value }
    }
}

/// A simple selector at `pos`: a type, with an optional `[key=value]`,
/// `[key*=value]` or `[contains("text")]` filter.
pub open spec fn simple(toks: Seq<SToken>, pos: int) -> Result<(SSel, int), Seq<char>> {
    if pos < 0 || pos >= toks.len() {
        Err("Unexpected end of query"@)
    } else {
        match toks[pos] {
            SToken::Ident(node_type) => {
                let p = pos + 1;
                if p < toks.len() && toks[p] is LBracket {
                    let p = p + 1;
                    if p < toks.len() {
                        match toks[p] {
                            SToken::Ident(key) => if key == "contains"@ {
                                let p = p + 1;
                                if p < toks.len() && toks[p] is Quoted {
                                    Ok((SSel::WithContains { node_type, text: toks[p]->Quoted_0 }, skip_rbracket(toks, p + 1)))
                                } else {
                                    Err("Invalid contains filter syntax"@)
                                }
                            } else {
                                let p = p + 1;
                                if p < toks.len() && (toks[p] is Equals || toks[p] is StarEquals) {
                                    let contains_op = toks[p] is StarEquals;
                                    let p = p + 1;
                                    if p < toks.len() {
                                        match toks[p] {
                                            SToken::Ident(value) => Ok((attr_sel(node_type, key, value, contains_op), skip_rbracket(toks, p + 1))),
                                            SToken::Quoted(value) => Ok((attr_sel(node_type, key, value, contains_op), skip_rbracket(toks, p + 1))),
                                            other => Err("Expected value, got "@ + token_debug(other)),
                                        }
                                    } else {
                                        Err("Invalid attribute filter syntax"@)
                                    }
                                } else if p < toks.len() {
                                    Err("Expected '=', got "@ + token_debug(toks[p]))
                                } else {
                                    Err("Unexpected end of query"@)
                                }
                            },
                            other => Err("Expected attribute name, got "@ + token_debug(other)),
                        }
                    } else {
                        Err("Invalid filter syntax"@)
                    }
                } else {
                    Ok((SSel::Type(node_type), p))
                }
            },
            other => Err("Expected node type, got "@ + token_debug(other)),
        }
    }
}

pub proof fn lemma_simple_advances(toks: Seq<SToken>, pos: int)
    ensures
        simple(toks, pos) matches Ok((_, p)) ==> pos < p <= toks.len(),
{
}

/// Two selectors joined by a comma.
pub open spec fn combine(left: SSel, right: SSel) -> SSel {
    match left {
        SSel::Multi(v) => SSel::Multi(v.push(right)),
        _ => SSel::Multi(seq![left, right]),
    }
}

/// A full selector at `pos`: simple selectors joined by combinators.
pub open spec fn sel(toks: Seq<SToken>, pos: int) -> Result<(SSel, int), Seq<char>>
    decreases toks.len() - pos, 1int,
{
    if pos < 0 || pos > toks.len() {
        Err("Unexpected end of query"@)
    } else {
        match simple(toks, pos) {
            Ok((first, p)) => {
                proof {
                    lemma_simple_advances(toks, pos);
                }
                comb(toks, p, first)
            },
            Err(e) => Err(e),
        }
    }
}

/// Combinators after the selector `left`, from `pos` on.
pub open spec fn comb(toks: Seq<SToken>, pos: int, left: SSel) -> Result<(SSel, int), Seq<char>>
    decreases toks.len() - pos, 0int,
{
    if pos < 0 || pos >= toks.len() {
        Ok((left, pos))
    } else {
        proof {
            lemma_simple_advances(toks, pos);
            lemma_simple_advances(toks, pos + 1);
        }
        match toks[pos] {
            SToken::Child => match simple(toks, pos + 1) {
                Ok((right, np)) => comb(toks, np, SSel::Child { parent: Box::new(left), child: Box::new(right) }),
                Err(e) => Err(e),
            },
            SToken::Sibling => match simple(toks, pos + 1) {
                Ok((right, np)) => comb(toks, np, SSel::Sibling { before: Box::new(left), after: Box::new(right) }),
                Err(e) => Err(e),
            },
            SToken::Ident(_) => match simple(toks, pos) {
                Ok((right, np)) => comb(toks, np, SSel::Descendant { ancestor: Box::new(left), descendant: Box::new(right) }),
                Err(e) => Err(e),
            },
            SToken::Comma => match sel(toks, pos + 1) {
                Ok((right, np)) => Ok((combine(left, right), np)),
                Err(e) => Err(e),
            },
            _ => Ok((left, pos)),
        }
    }
}

/// The selector that a token sequence spells, or why it cannot be read. A
/// token left over before the end (or an `Eof` token) is an error.
pub open spec fn parse_selector(toks: Seq<SToken>) -> Result<SSel, Seq<char>> {
    match sel(toks, 0) {
        Ok((s, p)) => if 0 <= p < toks.len() && !(toks[p] is Eof) {
            Err("Unexpected token: "@ + token_debug(toks[p]))
        } else {
            Ok(s)
        },
        Err(e) => Err(e),
    }
}

/// An exec result agrees with a spec result.
pub open spec fn sel_res_ok(r: Result<(Selector, usize), String>, s: Result<(SSel, int), Seq<char>>) -> bool {
    match r {
        Ok((x, p)) => s == Ok::<(SSel, int), Seq<char>>((x@, p as int)),
        Err(m) => s == Err::<(SSel, int), Seq<char>>(m@),
    }
}


fn msg_with_token(prefix: &str, t: &Token) -> (r: String)
    ensures
        r@ == prefix@ + token_debug(t@),
{
    let mut v: Vec<char> = Vec::new();
    push_str(&mut v, prefix);
    push_token_debug(&mut v, t);
    assert(v@ =~= prefix@ + token_debug(t@));
    string_from_chars(v.as_slice())
}

fn after_rbracket(tokens: &[Token], p: usize) -> (r: usize)
    requires
        p <= tokens@.len(),
    ensures
        r == skip_rbracket(tokens_view(tokens@), p as int),
{
    if p < tokens.len() {
        match &tokens[p] {
            Token::RBracket => p + 1,
            _ => p,
        }
    } else {
        p
    }
}

fn parse_simple_selector(tokens: &[Token], pos: usize) -> (r: Result<(Selector, usize), String>)
    requires
    ensures
        sel_res_ok(r, simple(tokens_view(tokens@), pos as int)),
{
    let ghost tv = tokens_view(tokens@);
    let len = tokens.len();
    if pos >= len {
        return Err(String::from_str("Unexpected end of query"));
    }
    let node_type = match &tokens[pos] {
        Token::Ident(s) => s.clone(),
        _ => {
            return Err(msg_with_token("Expected node type, got ", &tokens[pos]));
        },
    };
    let mut p = pos + 1;
    let is_lb = p < len && match &tokens[p] {
        Token::LBracket => true,
        _ => false,
    };
    if is_lb {
        p = p + 1;
        if p < len {
            match &tokens[p] {
                Token::Ident(key) => {
                    let kc = str_chars(key.as_str());
                    if crate::text::chars_eq_str(kc.as_slice(), "contains") {
                        p = p + 1;
                        if p < len {
                            match &tokens[p] {
                                Token::Quoted(t) => {
                                    let text = t.clone();
                                    let np = after_rbracket(tokens, p + 1);
                                    return Ok((Selector::WithContains { node_type, text }, np));
                                },
                                _ => {},
                            }
                        }
                        return Err(String::from_str("Invalid contains filter syntax"));
                    }
                    let key = key.clone();
                    p = p + 1;
                    if p >= len {
                        return Err(String::from_str("Unexpected end of query"));
                    }
                    let contains_op = match &tokens[p] {
                        Token::Equals => false,
                        Token::StarEquals => true,
                        _ => {
                            return Err(msg_with_token("Expected '=', got ", &tokens[p]));
                        },
                    };
                    p = p + 1;
                    if p < len {
                        let value = match &tokens[p] {
                            Token::Ident(v) => v.clone(),
                            Token::Quoted(v) => v.clone(),
                            _ => {
                                return Err(msg_with_token("Expected value, got ", &tokens[p]));
                            },
                        };
                        let np = after_rbracket(tokens, p + 1);
                        if contains_op {
                            return Ok((Selector::WithAttrContains { node_type, key, value }, np));
                        }
                        return Ok((Selector::WithAttr { node_type, key, value }, np));
                    }
                    return Err(String::from_str("Invalid attribute filter syntax"));
                },
                _ => {
                    return Err(msg_with_token("Expected attribute name, got ", &tokens[p]));
                },
            }
        }
        return Err(String::from_str("Invalid filter syntax"));
    }
    Ok((Selector::Type(node_type), p))
}

proof fn lemma_sels_view_push(s: Seq<Selector>, x: Selector)
    ensures
        sels_view(s.push(x)) == sels_view(s).push(x@),
{
    assert(s.push(x).drop_last() =~= s);
}

fn combine_sel(left: Selector, right: Selector) -> (r: Selector)
    ensures
        r@ == combine(left@, right@),
{
    match left {
        Selector::Multi(mut v) => {
            proof {
                lemma_sels_view_push(v@, right);
            }
            v.push(right);
            Selector::Multi(v)
        },
        other => {
            let ghost o = other@;
            let ghost r = right@;
            let mut v: Vec<Selector> = Vec::new();
            proof {
                lemma_sels_view_push(v@, other);
            }
            v.push(other);
            proof {
                lemma_sels_view_push(v@, right);
                assert(sels_view(Seq::<Selector>::empty()) =~= Seq::<SSel>::empty());
            }
            v.push(right);
            assert(sels_view(v@) =~= seq![o, r]);
            Selector::Multi(v)
        },
    }
}

fn parse_selector_at(tokens: &[Token], pos: usize) -> (r: Result<(Selector, usize), String>)
    requires
        pos <= tokens@.len(),
    ensures
        sel_res_ok(r, sel(tokens_view(tokens@), pos as int)),
    decreases tokens@.len() - pos, 1int,
{
    proof {
        lemma_simple_advances(tokens_view(tokens@), pos as int);
    }
    match parse_simple_selector(tokens, pos) {
        Ok((first, p)) => parse_combinator(tokens, p, first),
        Err(e) => Err(e),
    }
}

fn parse_combinator(tokens: &[Token], pos: usize, left: Selector) -> (r: Result<(Selector, usize), String>)
    requires
        pos <= tokens@.len(),
    ensures
        sel_res_ok(r, comb(tokens_view(tokens@), pos as int, left@)),
    decreases tokens@.len() - pos, 0int,
{
    let ghost tv = tokens_view(tokens@);
    if pos >= tokens.len() {
        return Ok((left, pos));
    }
    proof {
        lemma_simple_advances(tv, pos as int);
        lemma_simple_advances(tv, pos + 1);
    }
    match &tokens[pos] {
        Token::Child => match parse_simple_selector(tokens, pos + 1) {
            Ok((right, np)) => parse_combinator(tokens, np, Selector::Child { parent: Box::new(left), child: Box::new(right) }),
            Err(e) => Err(e),
        },
        Token::Sibling => match parse_simple_selector(tokens, pos + 1) {
            Ok((right, np)) => parse_combinator(tokens, np, Selector::Sibling { before: Box::new(left), after: Box::new(right) }),
            Err(e) => Err(e),
        },
        Token::Ident(_) => match parse_simple_selector(tokens, pos) {
            Ok((right, np)) => parse_combinator(tokens, np, Selector::Descendant { ancestor: Box::new(left), descendant: Box::new(right) }),
            Err(e) => Err(e),
        },
        Token::Comma => match parse_selector_at(tokens, pos + 1) {
            Ok((right, np)) => Ok((combine_sel(left, right), np)),
            Err(e) => Err(e),
        },
        _ => Ok((left, pos)),
    }
}

pub open spec fn selector_result_ok(r: Result<Selector, String>, s: Result<SSel, Seq<char>>) -> bool {
    match r {
        Ok(x) => s == Ok::<SSel, Seq<char>>(x@),
        Err(m) => s == Err::<SSel, Seq<char>>(m@),
    }
}

impl Selector {
    /// Parses a selector from tokens: the whole sequence up to its end or an
    /// `Eof` token must spell one selector.
    pub fn parse(tokens: &[Token]) -> (r: Result<Self, String>)
        ensures
            selector_result_ok(r, parse_selector(tokens_view(tokens@))),
    {
        match parse_selector_at(tokens, 0) {
            Ok((s, p)) => {
                if p < tokens.len() {
                    match &tokens[p] {
                        Token::Eof => Ok(s),
                        t => Err(msg_with_token("Unexpected token: ", t)),
                    }
                } else {
                    Ok(s)
                }
            },
            Err(e) => Err(e),
        }
    }
}


} // verus!
