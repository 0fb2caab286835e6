//! What a struct's `crdt` attributes say of its table.
//!
//! A struct declaration, given as its name, its fields and the tokens of its attributes, becomes a
//! [`Plan`]: the [`TableSpec`] that it describes and the constants that name its columns. The
//! struct's own attribute reads `#[crdt(table = "...")]` or
//! `#[crdt(table = "...", pk = (a, b; sep = ':'))]`; a field's attribute lists `pk`, `skip`,
//! `rename = "..."` and `skeleton = <literal or now_rfc3339>`.
use vstd::prelude::*;

use crate::schema::PkSpec;
use crate::schema::PkView;
use crate::schema::SkeletonValue;
use crate::schema::SkeletonView;
use crate::schema::TableSpec;
use crate::schema::TableView;
use crate::schema::skeleton_view;
use crate::statement::is_digit;
use crate::statement::number;
use crate::text::chars_of;
use crate::text::same_text;
use crate::value::Real;
use crate::value::RealView;
use crate::value::SqlValue;
use crate::value::Value;
use crate::value::texts_view;

verus! {

/// The magnitude of the least `i64`.
const MAGNITUDE: u128 = 9223372036854775808;

/// A token of an attribute's arguments.
#[derive(Debug)]
pub enum Token {
    /// A word, and whether it is reserved.
    Word { text: String, keyword: bool },
    /// A punctuation character.
    Punct(char),
    /// A string literal.
    Str(String),
    /// A character literal.
    Char(char),
    /// An integer literal.
    Int(i64),
    /// A floating-point literal.
    Float(Real),
    /// The literal of a number that no column value can hold, and what is wrong with it.
    Unfit(String),
    /// A literal of any other kind.
    Literal,
    /// An opening bracket.
    Open(char),
    /// A closing bracket.
    Close,
}

/// What a [`Token`] holds.
pub enum TokenView {
    Word { text: Seq<char>, keyword: bool },
    Punct(char),
    Str(Seq<char>),
    Char(char),
    Int(i64),
    Float(RealView),
    Unfit(Seq<char>),
    Literal,
    Open(char),
    Close,
}

impl View for Token {
    type V = TokenView;

    open spec fn view(&self) -> TokenView {
        match *self {
            Token::Word { text, keyword } => TokenView::Word { text: text@, keyword },
            Token::Punct(c) => TokenView::Punct(c),
            Token::Str(s) => TokenView::Str(s@),
            Token::Char(c) => TokenView::Char(c),
            Token::Int(i) => TokenView::Int(i),
            Token::Float(r) => TokenView::Float(r@),
            Token::Unfit(message) => TokenView::Unfit(message@),
            Token::Literal => TokenView::Literal,
            Token::Open(c) => TokenView::Open(c),
            Token::Close => TokenView::Close,
        }
    }
}

/// The number that a text of digits stands for.
pub open spec fn natural_of(text: Seq<char>) -> Option<nat> {
    if text.len() > 0 && forall|k: int| 0 <= k < text.len() ==> is_digit(#[trigger] text[k]) {
        Some(number(text))
    } else {
        None
    }
}

/// The number that a text stands for: digits, with a minus sign before them where there is one.
pub open spec fn integer_of(text: Seq<char>) -> Option<int> {
    if text.len() > 0 && text[0] == '-' {
        match natural_of(text.skip(1)) {
            Some(n) => Some(-n),
            None => None,
        }
    } else {
        match natural_of(text) {
            Some(n) => Some(n as int),
            None => None,
        }
    }
}

/// The token of an integer literal: a column value holds it where it is an `i64`.
pub open spec fn integer_token(text: Seq<char>, suffix: Seq<char>) -> TokenView {
    if suffix != ""@ && suffix != "i64"@ {
        TokenView::Unfit("mismatched types: expected `i64`"@)
    } else {
        match integer_of(text) {
            Some(n) if i64::MIN <= n <= i64::MAX => TokenView::Int(n as i64),
            _ => TokenView::Unfit("literal out of range for `i64`"@),
        }
    }
}

/// The token of a floating-point literal: a column value holds it where it is a finite `f64`.
pub open spec fn float_token(value: RealView, suffix: Seq<char>) -> TokenView {
    if suffix != ""@ && suffix != "f64"@ {
        TokenView::Unfit("mismatched types: expected `f64`"@)
    } else if value.json is None {
        TokenView::Unfit("literal out of range for `f64`"@)
    } else {
        TokenView::Float(value)
    }
}

/// The number that digits stand for, where it is at most the magnitude of the least `i64`.
fn magnitude(chars: &Vec<char>, from: usize) -> (value: Option<u128>)
    requires
        from <= chars@.len(),
    ensures
        value == (match natural_of(chars@.skip(from as int)) {
            Some(n) if n <= MAGNITUDE => Some(n as u128),
            _ => None,
        }),
{
    if from == chars.len() {
        return None;
    }
    let ghost digits = chars@.skip(from as int);
    let mut value: u128 = 0;
    let mut large = false;
    let mut i: usize = from;
    while i < chars.len()
        invariant
            from <= i <= chars@.len(),
            digits == chars@.skip(from as int),
            forall|k: int| from <= k < i ==> is_digit(#[trigger] chars@[k]),
            !large ==> value == number(digits.take(i - from)) && value <= MAGNITUDE,
            large ==> number(digits.take(i - from)) > MAGNITUDE,
        decreases chars@.len() - i,
    {
        let c = chars[i];
        assert(c == digits[i - from]);
        if c < '0' || c > '9' {
            return None;
        }
        proof {
            let longer = digits.take(i + 1 - from);
            assert(longer.drop_last() =~= digits.take(i - from));
            assert(longer.last() == c);
        }
        if !large {
            value = value * 10 + (c as u128 - 48);
            large = value > MAGNITUDE;
        }
        i += 1;
    }
    assert(digits.take(i - from) =~= digits);
    assert(forall|k: int| 0 <= k < digits.len() ==> #[trigger] digits[k] == chars@[k + from]);
    if large {
        None
    } else {
        Some(value)
    }
}

impl Token {
    /// The token of an integer literal, given its digits and its suffix.
    pub fn integer(text: &str, suffix: &str) -> (token: Token)
        ensures
            token@ == integer_token(text@, suffix@),
    {
        if !same_text(suffix, "") && !same_text(suffix, "i64") {
            return Token::Unfit("mismatched types: expected `i64`".to_owned());
        }
        let chars = chars_of(text);
        let signed = chars.len() > 0 && chars[0] == '-';
        let from: usize = if signed {
            1
        } else {
            0
        };
        assert(!signed ==> text@.skip(from as int) =~= text@);
        match magnitude(&chars, from) {
            Some(n) => if signed {
                Token::Int((0 - n as i128) as i64)
            } else if n < MAGNITUDE {
                Token::Int(n as i64)
            } else {
                Token::Unfit("literal out of range for `i64`".to_owned())
            },
            None => Token::Unfit("literal out of range for `i64`".to_owned()),
        }
    }

    /// The token of a floating-point literal, given its value and its suffix.
    pub fn float(value: Real, suffix: &str) -> (token: Token)
        ensures
            token@ == float_token(value@, suffix@),
    {
        if !same_text(suffix, "") && !same_text(suffix, "f64") {
            Token::Unfit("mismatched types: expected `f64`".to_owned())
        } else if value.json.is_none() {
            Token::Unfit("literal out of range for `f64`".to_owned())
        } else {
            Token::Float(value)
        }
    }
}

/// The tokens of an attribute's arguments.
pub type Tokens = Seq<TokenView>;

/// What a list of tokens holds.
pub open spec fn tokens_view(tokens: Seq<Token>) -> Tokens {
    tokens.map_values(|token: Token| token@)
}

/// How an attribute is written.
#[derive(Debug)]
pub enum Form {
    /// `#[name]`
    Bare,
    /// `#[name = value]`
    NameValue,
    /// `#[name(arguments)]`
    List(Vec<Token>),
}

/// What a [`Form`] holds.
pub enum FormView {
    Bare,
    NameValue,
    List(Tokens),
}

impl View for Form {
    type V = FormView;

    open spec fn view(&self) -> FormView {
        match *self {
            Form::Bare => FormView::Bare,
            Form::NameValue => FormView::NameValue,
            Form::List(tokens) => FormView::List(tokens_view(tokens@)),
        }
    }
}

/// An attribute.
#[derive(Debug)]
pub struct Attribute {
    /// Its name, the parts of a longer path joined by `::`.
    pub path: String,
    pub form: Form,
}

impl View for Attribute {
    type V = (Seq<char>, FormView);

    open spec fn view(&self) -> (Seq<char>, FormView) {
        (self.path@, self.form@)
    }
}

/// What a list of attributes holds.
pub open spec fn attributes_view(attrs: Seq<Attribute>) -> Seq<(Seq<char>, FormView)> {
    attrs.map_values(|attr: Attribute| attr@)
}

/// A field with a name.
#[derive(Debug)]
pub struct Field {
    pub ident: String,
    pub attrs: Vec<Attribute>,
}

/// What a [`Field`] holds.
pub struct FieldView {
    pub ident: Seq<char>,
    pub attrs: Seq<(Seq<char>, FormView)>,
}

impl View for Field {
    type V = FieldView;

    open spec fn view(&self) -> FieldView {
        FieldView { ident: self.ident@, attrs: attributes_view(self.attrs@) }
    }
}

/// What a list of fields holds.
pub open spec fn fields_view(fields: Seq<Field>) -> Seq<FieldView> {
    fields.map_values(|field: Field| field@)
}

/// What a declaration declares.
#[derive(Debug)]
pub enum Body {
    /// A struct with named fields.
    Named(Vec<Field>),
    /// Any other struct.
    Unnamed,
    /// No struct.
    Other,
}

/// What a [`Body`] holds.
pub enum BodyView {
    Named(Seq<FieldView>),
    Unnamed,
    Other,
}

impl View for Body {
    type V = BodyView;

    open spec fn view(&self) -> BodyView {
        match *self {
            Body::Named(fields) => BodyView::Named(fields_view(fields@)),
            Body::Unnamed => BodyView::Unnamed,
            Body::Other => BodyView::Other,
        }
    }
}

/// A declaration with `crdt` attributes.
#[derive(Debug)]
pub struct Declaration {
    /// Whether it has generic parameters.
    pub generic: bool,
    pub attrs: Vec<Attribute>,
    pub body: Body,
}

/// What a [`Declaration`] holds.
pub struct DeclarationView {
    pub generic: bool,
    pub attrs: Seq<(Seq<char>, FormView)>,
    pub body: BodyView,
}

impl View for Declaration {
    type V = DeclarationView;

    open spec fn view(&self) -> DeclarationView {
        DeclarationView {
            generic: self.generic,
            attrs: attributes_view(self.attrs@),
            body: self.body@,
        }
    }
}

/// Where in a declaration an error is.
#[derive(Clone, Copy, Debug, PartialEq, Eq, Structural)]
pub enum Place {
    /// The declaration as a whole.
    Whole,
    /// Its generic parameters.
    Generics,
    /// Its name.
    Name,
    /// A field.
    Field(usize),
    /// A token of an attribute of the declaration, or the end of its arguments.
    Argument { attr: usize, token: usize },
    /// An attribute of a field.
    FieldAttribute { field: usize, attr: usize },
    /// A token of an attribute of a field, or the end of its arguments.
    FieldArgument { field: usize, attr: usize, token: usize },
}

/// An error in a declaration.
#[derive(Debug)]
pub struct Diagnostic {
    pub message: String,
    pub place: Place,
}

/// What a [`Diagnostic`] holds.
pub struct DiagnosticView {
    pub message: Seq<char>,
    pub place: Place,
}

impl View for Diagnostic {
    type V = DiagnosticView;

    open spec fn view(&self) -> DiagnosticView {
        DiagnosticView { message: self.message@, place: self.place }
    }
}

/// An error at a token.
pub struct Misfit {
    pub message: String,
    pub at: usize,
}

/// What a [`Misfit`] holds.
pub struct MisfitView {
    pub message: Seq<char>,
    pub at: int,
}

impl View for Misfit {
    type V = MisfitView;

    open spec fn view(&self) -> MisfitView {
        MisfitView { message: self.message@, at: self.at as int }
    }
}

/// The error of tokens that are not what is expected at `at`, in a run that ends at `end`.
pub open spec fn expected(at: int, end: int, what: Seq<char>) -> MisfitView {
    MisfitView {
        message: if at < end {
            what
        } else {
            "unexpected end of input, "@ + what
        },
        at: if at < end {
            at
        } else {
            end
        },
    }
}

/// The error of what stands `k` tokens behind `at`, in a run that ends at `end`.
fn expect(at: usize, k: usize, end: usize, what: &str) -> (misfit: Misfit)
    requires
        at <= end,
    ensures
        misfit@ == expected(at + k, end as int, what@),
{
    if k < end - at {
        Misfit { message: what.to_owned(), at: at + k }
    } else {
        Misfit { message: "unexpected end of input, ".to_owned().concat(what), at: end }
    }
}

/// The token `k` tokens behind `at`, in a run that ends at `end`.
fn token_at(tokens: &Vec<Token>, at: usize, k: usize, end: usize) -> (token: Option<&Token>)
    requires
        at <= end <= tokens@.len(),
    ensures
        match token {
            Some(found) => at + k < end && found@ == tokens_view(tokens@)[at + k],
            None => at + k >= end,
        },
{
    if k < end - at {
        assert(tokens_view(tokens@)[at + k] == tokens@[at + k]@);
        Some(&tokens[at + k])
    } else {
        None
    }
}

/// The identifier at `at`.
pub open spec fn ident_at(tokens: Tokens, at: int, end: int) -> Result<Seq<char>, MisfitView> {
    if at < end && tokens[at] is Word {
        if tokens[at]->keyword {
            Err(
                expected(
                    at,
                    end,
                    "expected identifier, found keyword `"@ + tokens[at]->Word_text + "`"@,
                ),
            )
        } else {
            Ok(tokens[at]->Word_text)
        }
    } else {
        Err(expected(at, end, "expected identifier"@))
    }
}

/// What a step of the parser gives, as its contract sees it.
pub open spec fn parsed<T: View>(result: Result<T, Misfit>) -> Result<T::V, MisfitView> {
    match result {
        Ok(value) => Ok(value@),
        Err(misfit) => Err(misfit@),
    }
}

fn read_ident(tokens: &Vec<Token>, at: usize, k: usize, end: usize) -> (result: Result<
    String,
    Misfit,
>)
    requires
        at <= end <= tokens@.len(),
    ensures
        parsed(result) == ident_at(tokens_view(tokens@), at + k, end as int),
        result is Ok ==> at + k < end,
{
    if let Some(Token::Word { text, keyword }) = token_at(tokens, at, k, end) {
        if *keyword {
            let mut message = "expected identifier, found keyword `".to_owned();
            message.append(text.as_str());
            message.append("`");
            return Err(expect(at, k, end, message.as_str()));
        }
        return Ok(text.clone());
    }
    Err(expect(at, k, end, "expected identifier"))
}

/// Whether the punctuation `c` stands at `at`.
pub open spec fn punct_at(tokens: Tokens, at: int, end: int, c: char) -> bool {
    at < end && tokens[at] == TokenView::Punct(c)
}

fn sees_punct(tokens: &Vec<Token>, at: usize, k: usize, end: usize, c: char) -> (yes: bool)
    requires
        at <= end <= tokens@.len(),
    ensures
        yes == punct_at(tokens_view(tokens@), at + k, end as int, c),
{
    if let Some(Token::Punct(p)) = token_at(tokens, at, k, end) {
        *p == c
    } else {
        false
    }
}

/// Where the bracket that was opened before `from` closes; the end of the tokens where it does
/// not.
pub open spec fn close_from(tokens: Tokens, from: int, depth: nat) -> int
    decreases tokens.len() - from,
{
    if from < 0 || from >= tokens.len() {
        tokens.len() as int
    } else if tokens[from] is Open {
        close_from(tokens, from + 1, depth + 1)
    } else if tokens[from] is Close {
        if depth == 0 {
            from
        } else {
            close_from(tokens, from + 1, (depth - 1) as nat)
        }
    } else {
        close_from(tokens, from + 1, depth)
    }
}

fn find_close(tokens: &Vec<Token>, from: usize) -> (close: usize)
    requires
        from <= tokens@.len(),
    ensures
        close == close_from(tokens_view(tokens@), from as int, 0),
        from <= close <= tokens@.len(),
{
    let ghost view = tokens_view(tokens@);
    let mut depth: usize = 0;
    let mut i: usize = from;
    while i < tokens.len()
        invariant
            from <= i <= tokens@.len(),
            depth <= i - from,
            view == tokens_view(tokens@),
            close_from(view, from as int, 0) == close_from(view, i as int, depth as nat),
        decreases tokens@.len() - i,
    {
        assert(view[i as int] == tokens@[i as int]@);
        match &tokens[i] {
            Token::Open(_) => {
                depth += 1;
            },
            Token::Close => {
                if depth == 0 {
                    return i;
                }
                depth -= 1;
            },
            _ => {},
        }
        i += 1;
    }
    i
}

/// A composite key: its two columns, the separator, and where its brackets open.
#[derive(Debug)]
pub struct Composite {
    pub a: String,
    pub b: String,
    pub sep: char,
    pub at: usize,
}

/// What a [`Composite`] holds.
pub struct CompositeView {
    pub a: Seq<char>,
    pub b: Seq<char>,
    pub sep: char,
    pub at: int,
}

impl View for Composite {
    type V = CompositeView;

    open spec fn view(&self) -> CompositeView {
        CompositeView { a: self.a@, b: self.b@, sep: self.sep, at: self.at as int }
    }
}

/// One argument of a struct's attribute.
pub enum Arg {
    Table(String),
    Pk(Composite),
}

/// What an [`Arg`] holds.
pub enum ArgView {
    Table(Seq<char>),
    Pk(CompositeView),
}

impl View for Arg {
    type V = ArgView;

    open spec fn view(&self) -> ArgView {
        match *self {
            Arg::Table(name) => ArgView::Table(name@),
            Arg::Pk(composite) => ArgView::Pk(composite@),
        }
    }
}

/// An argument with where the next token is, and where the first token is that its brackets hold
/// beyond what they should.
pub struct Read {
    pub arg: Arg,
    pub next: usize,
    pub surplus: Option<usize>,
}

/// What a [`Read`] holds.
pub struct ReadView {
    pub arg: ArgView,
    pub next: int,
    pub surplus: Option<int>,
}

impl View for Read {
    type V = ReadView;

    open spec fn view(&self) -> ReadView {
        ReadView {
            arg: self.arg@,
            next: self.next as int,
            surplus: match self.surplus {
                Some(at) => Some(at as int),
                None => None,
            },
        }
    }
}

/// The separator of a composite key, from the `;` at `at` on, and where the next token is.
pub open spec fn sep_at(tokens: Tokens, at: int, end: int) -> Result<(char, int), MisfitView> {
    match ident_at(tokens, at + 1, end) {
        Err(misfit) => Err(misfit),
        Ok(key) => if key != "sep"@ {
            Err(
                MisfitView { message: "expected `sep = '<char>'` in composite pk"@, at: at + 1 },
            )
        } else if !punct_at(tokens, at + 2, end, '=') {
            Err(expected(at + 2, end, "expected `=`"@))
        } else if !(at + 3 < end && tokens[at + 3] is Char) {
            Err(expected(at + 3, end, "expected character literal"@))
        } else {
            Ok((tokens[at + 3]->Char_0, at + 4))
        },
    }
}

/// The composite key whose brackets open at `at`: `(a, b)` or `(a, b; sep = ':')`.
pub open spec fn composite_at(tokens: Tokens, at: int) -> Result<ReadView, MisfitView> {
    let end = close_from(tokens, at + 1, 0);
    match ident_at(tokens, at + 1, end) {
        Err(misfit) => Err(misfit),
        Ok(a) => if !punct_at(tokens, at + 2, end, ',') {
            Err(expected(at + 2, end, "expected `,`"@))
        } else {
            match ident_at(tokens, at + 3, end) {
                Err(misfit) => Err(misfit),
                Ok(b) => match if punct_at(tokens, at + 4, end, ';') {
                    sep_at(tokens, at + 4, end)
                } else {
                    Ok((':', at + 4))
                } {
                    Err(misfit) => Err(misfit),
                    Ok((sep, rest)) => Ok(
                        ReadView {
                            arg: ArgView::Pk(CompositeView { a, b, sep, at }),
                            next: if end < tokens.len() {
                                end + 1
                            } else {
                                end
                            },
                            surplus: if rest < end {
                                Some(rest)
                            } else {
                                None
                            },
                        },
                    ),
                },
            }
        },
    }
}

/// The argument of a struct's attribute at `at`: `table = "..."` or `pk = (...)`.
pub open spec fn arg_at(tokens: Tokens, at: int) -> Result<ReadView, MisfitView> {
    let end = tokens.len() as int;
    match ident_at(tokens, at, end) {
        Err(misfit) => Err(misfit),
        Ok(key) => if key == "table"@ {
            if !punct_at(tokens, at + 1, end, '=') {
                Err(expected(at + 1, end, "expected `=`"@))
            } else if !(at + 2 < end && tokens[at + 2] is Str) {
                Err(expected(at + 2, end, "expected string literal"@))
            } else {
                Ok(
                    ReadView {
                        arg: ArgView::Table(tokens[at + 2]->Str_0),
                        next: at + 3,
                        surplus: None,
                    },
                )
            }
        } else if key == "pk"@ {
            if !punct_at(tokens, at + 1, end, '=') {
                Err(expected(at + 1, end, "expected `=`"@))
            } else if !(at + 2 < end && tokens[at + 2] == TokenView::Open('(')) {
                Err(expected(at + 2, end, "expected parentheses"@))
            } else {
                composite_at(tokens, at + 2)
            }
        } else {
            Err(
                MisfitView {
                    message: "unknown crdt(...) key `"@ + key
                        + "` on the struct; expected `table` or `pk`"@,
                    at,
                },
            )
        },
    }
}

fn read_sep(tokens: &Vec<Token>, at: usize, end: usize) -> (result: Result<(char, usize), Misfit>)
    requires
        at < end <= tokens@.len(),
    ensures
        match result {
            Ok((sep, rest)) => sep_at(tokens_view(tokens@), at as int, end as int) == Ok::<
                (char, int),
                MisfitView,
            >((sep, rest as int)) && rest <= end,
            Err(misfit) => sep_at(tokens_view(tokens@), at as int, end as int) == Err::<
                (char, int),
                MisfitView,
            >(misfit@),
        },
{
    let key = read_ident(tokens, at, 1, end)?;
    if !same_text(key.as_str(), "sep") {
        return Err(
            Misfit {
                message: "expected `sep = '<char>'` in composite pk".to_owned(),
                at: at + 1,
            },
        );
    }
    if !sees_punct(tokens, at, 2, end, '=') {
        return Err(expect(at, 2, end, "expected `=`"));
    }
    if let Some(Token::Char(sep)) = token_at(tokens, at, 3, end) {
        return Ok((*sep, at + 4));
    }
    Err(expect(at, 3, end, "expected character literal"))
}

fn read_composite(tokens: &Vec<Token>, at: usize) -> (result: Result<Read, Misfit>)
    requires
        at < tokens@.len(),
    ensures
        parsed(result) == composite_at(tokens_view(tokens@), at as int),
        result matches Ok(read) ==> at < read.next,
{
    let count = tokens.len();
    let end = find_close(tokens, at + 1);
    let a = read_ident(tokens, at, 1, end)?;
    if !sees_punct(tokens, at, 2, end, ',') {
        return Err(expect(at, 2, end, "expected `,`"));
    }
    let b = read_ident(tokens, at, 3, end)?;
    let (sep, rest) = if sees_punct(tokens, at, 4, end, ';') {
        read_sep(tokens, at + 4, end)?
    } else {
        (':', at + 4)
    };
    let surplus = if rest < end {
        Some(rest)
    } else {
        None
    };
    let next = if end < count {
        end + 1
    } else {
        end
    };
    Ok(Read { arg: Arg::Pk(Composite { a, b, sep, at }), next, surplus })
}

fn read_arg(tokens: &Vec<Token>, at: usize) -> (result: Result<Read, Misfit>)
    requires
        at <= tokens@.len(),
    ensures
        parsed(result) == arg_at(tokens_view(tokens@), at as int),
        result matches Ok(read) ==> at < read.next,
{
    let end = tokens.len();
    let key = read_ident(tokens, at, 0, end)?;
    if same_text(key.as_str(), "table") {
        if !sees_punct(tokens, at, 1, end, '=') {
            return Err(expect(at, 1, end, "expected `=`"));
        }
        if let Some(Token::Str(name)) = token_at(tokens, at, 2, end) {
            return Ok(Read { arg: Arg::Table(name.clone()), next: at + 3, surplus: None });
        }
        return Err(expect(at, 2, end, "expected string literal"));
    }
    if same_text(key.as_str(), "pk") {
        if !sees_punct(tokens, at, 1, end, '=') {
            return Err(expect(at, 1, end, "expected `=`"));
        }
        if let Some(Token::Open(bracket)) = token_at(tokens, at, 2, end) {
            if *bracket == '(' {
                return read_composite(tokens, at + 2);
            }
        }
        return Err(expect(at, 2, end, "expected parentheses"));
    }
    let mut message = "unknown crdt(...) key `".to_owned();
    message.append(key.as_str());
    message.append("` on the struct; expected `table` or `pk`");
    Err(Misfit { message, at })
}

/// What the arguments of a struct's attributes say.
pub struct Container {
    pub table: Option<String>,
    /// The composite key, and the place of the attribute that gives it.
    pub composite: Option<(Composite, usize)>,
}

/// What a [`Container`] holds.
pub struct ContainerView {
    pub table: Option<Seq<char>>,
    pub composite: Option<(CompositeView, int)>,
}

impl View for Container {
    type V = ContainerView;

    open spec fn view(&self) -> ContainerView {
        ContainerView {
            table: match self.table {
                Some(name) => Some(name@),
                None => None,
            },
            composite: match self.composite {
                Some((composite, attr)) => Some((composite@, attr as int)),
                None => None,
            },
        }
    }
}

impl ContainerView {
    /// What is said with one more argument, of the attribute at `attr`.
    pub open spec fn with(self, arg: ArgView, attr: int) -> ContainerView {
        match arg {
            ArgView::Table(name) => ContainerView { table: Some(name), ..self },
            ArgView::Pk(composite) => ContainerView { composite: Some((composite, attr)), ..self },
        }
    }
}

proof fn lemma_close_from(tokens: Tokens, from: int, depth: nat)
    requires
        0 <= from <= tokens.len(),
    ensures
        from <= close_from(tokens, from, depth) <= tokens.len(),
    decreases tokens.len() - from,
{
    if from < tokens.len() {
        if tokens[from] is Open {
            lemma_close_from(tokens, from + 1, depth + 1);
        } else if tokens[from] is Close {
            if depth > 0 {
                lemma_close_from(tokens, from + 1, (depth - 1) as nat);
            }
        } else {
            lemma_close_from(tokens, from + 1, depth);
        }
    }
}

/// The arguments of a struct's attribute from `at` on, separated by commas, added to `sofar`.
/// `surplus` is the first token in excess of an argument before them.
pub open spec fn args_from(
    tokens: Tokens,
    at: int,
    attr: int,
    sofar: ContainerView,
    surplus: Option<int>,
) -> Result<ContainerView, MisfitView>
    decreases tokens.len() + 1 - at,
    via args_from_decreases
{
    if at < 0 || at >= tokens.len() {
        match surplus {
            Some(excess) => Err(
                MisfitView { message: "unexpected token, expected `)`"@, at: excess },
            ),
            None => Ok(sofar),
        }
    } else {
        match arg_at(tokens, at) {
            Err(misfit) => Err(misfit),
            Ok(read) => if read.next < tokens.len() && !punct_at(
                tokens,
                read.next,
                tokens.len() as int,
                ',',
            ) {
                Err(expected(read.next, tokens.len() as int, "expected `,`"@))
            } else {
                args_from(
                    tokens,
                    read.next + 1,
                    attr,
                    sofar.with(read.arg, attr),
                    if surplus is Some {
                        surplus
                    } else {
                        read.surplus
                    },
                )
            },
        }
    }
}

#[via_fn]
proof fn args_from_decreases(
    tokens: Tokens,
    at: int,
    attr: int,
    sofar: ContainerView,
    surplus: Option<int>,
) {
    if 0 <= at < tokens.len() {
        if at + 3 <= tokens.len() {
            lemma_close_from(tokens, at + 3, 0);
        }
    }
}

fn read_args(tokens: &Vec<Token>, attr: usize, container: &mut Container) -> (result: Result<
    (),
    Misfit,
>)
    ensures
        match result {
            Ok(()) => args_from(
                tokens_view(tokens@),
                0,
                attr as int,
                old(container)@,
                None,
            ) == Ok::<ContainerView, MisfitView>(final(container)@),
            Err(misfit) => args_from(
                tokens_view(tokens@),
                0,
                attr as int,
                old(container)@,
                None,
            ) == Err::<ContainerView, MisfitView>(misfit@),
        },
        final(container).composite != old(container).composite ==> match final(container).composite {
            Some((composite, origin)) => origin == attr,
            None => false,
        },
{
    let ghost view = tokens_view(tokens@);
    let mut at: usize = 0;
    let mut surplus: Option<usize> = None;
    let ghost mut noted: Option<int> = None;
    while at < tokens.len()
        invariant
            view == tokens_view(tokens@),
            noted == match surplus {
                Some(excess) => Some(excess as int),
                None => None,
            },
            args_from(view, 0, attr as int, old(container)@, None) == args_from(
                view,
                at as int,
                attr as int,
                container@,
                noted,
            ),
            container.composite != old(container).composite ==> match container.composite {
                Some((composite, origin)) => origin == attr,
                None => false,
            },
        decreases tokens@.len() - at,
    {
        let read = read_arg(tokens, at)?;
        let ghost before = container@;
        if read.next < tokens.len() && !sees_punct(tokens, read.next, 0, tokens.len(), ',') {
            return Err(expect(read.next, 0, tokens.len(), "expected `,`"));
        }
        match read.arg {
            Arg::Table(name) => {
                container.table = Some(name);
            },
            Arg::Pk(composite) => {
                container.composite = Some((composite, attr));
            },
        }
        assert(container@ == before.with(read.arg@, attr as int));
        if surplus.is_none() {
            surplus = read.surplus;
        }
        proof {
            noted =
            if noted is Some {
                noted
            } else {
                read@.surplus
            };
        }
        if read.next < tokens.len() {
            at = read.next + 1;
        } else {
            at = tokens.len();
            assert(args_from(view, at as int, attr as int, container@, noted) == args_from(
                view,
                read.next + 1,
                attr as int,
                container@,
                noted,
            ));
        }
    }
    match surplus {
        Some(excess) => Err(
            Misfit { message: "unexpected token, expected `)`".to_owned(), at: excess },
        ),
        None => Ok(()),
    }
}

/// What a struct's attributes from the one at `i` on say, added to `sofar`.
pub open spec fn containers_from(
    attrs: Seq<(Seq<char>, FormView)>,
    i: int,
    sofar: ContainerView,
) -> Result<ContainerView, DiagnosticView>
    decreases attrs.len() - i,
{
    if i < 0 || i >= attrs.len() {
        Ok(sofar)
    } else if attrs[i].0 == "crdt"@ && attrs[i].1 is List {
        match args_from(attrs[i].1->List_0, 0, i, sofar, None) {
            Ok(container) => containers_from(attrs, i + 1, container),
            Err(misfit) => Err(
                DiagnosticView {
                    message: misfit.message,
                    place: Place::Argument { attr: i as usize, token: misfit.at as usize },
                },
            ),
        }
    } else {
        containers_from(attrs, i + 1, sofar)
    }
}

/// What a struct's attributes say: the name of its table, and its composite key if it has one.
pub open spec fn container_of(attrs: Seq<(Seq<char>, FormView)>) -> Result<
    (Seq<char>, Option<(CompositeView, int)>),
    DiagnosticView,
> {
    match containers_from(attrs, 0, ContainerView { table: None, composite: None }) {
        Err(diagnostic) => Err(diagnostic),
        Ok(container) => match container.table {
            Some(table) => Ok((table, container.composite)),
            None => Err(
                DiagnosticView {
                    message: "#[derive(Crdt)] requires #[crdt(table = \"...\")] on the struct"@,
                    place: Place::Whole,
                },
            ),
        },
    }
}

/// Parses all `#[crdt(...)]` arguments of a struct in one pass.
fn parse_container(attrs: &Vec<Attribute>) -> (result: Result<
    (String, Option<(Composite, usize)>),
    Diagnostic,
>)
    ensures
        match result {
            Ok((table, composite)) => container_of(attributes_view(attrs@)) == Ok::<
                (Seq<char>, Option<(CompositeView, int)>),
                DiagnosticView,
            >(
                (
                    table@,
                    match composite {
                        Some((composite, attr)) => Some((composite@, attr as int)),
                        None => None,
                    },
                ),
            ) && (composite matches Some((composite, attr)) ==> attr < attrs@.len()),
            Err(diagnostic) => container_of(attributes_view(attrs@)) == Err::<
                (Seq<char>, Option<(CompositeView, int)>),
                DiagnosticView,
            >(diagnostic@),
        },
{
    let ghost views = attributes_view(attrs@);
    let mut container = Container { table: None, composite: None };
    let mut i: usize = 0;
    while i < attrs.len()
        invariant
            i <= attrs@.len(),
            views == attributes_view(attrs@),
            containers_from(views, 0, ContainerView { table: None, composite: None })
                == containers_from(views, i as int, container@),
            container.composite matches Some((composite, attr)) ==> attr < attrs@.len(),
        decreases attrs@.len() - i,
    {
        assert(views[i as int] == attrs@[i as int]@);
        if same_text(attrs[i].path.as_str(), "crdt") {
            if let Form::List(tokens) = &attrs[i].form {
                match read_args(tokens, i, &mut container) {
                    Ok(()) => {},
                    Err(misfit) => return Err(
                        Diagnostic {
                            message: misfit.message,
                            place: Place::Argument { attr: i, token: misfit.at },
                        },
                    ),
                }
            }
        }
        i += 1;
    }
    match container.table {
        Some(table) => Ok((table, container.composite)),
        None => Err(
            Diagnostic {
                message: "#[derive(Crdt)] requires #[crdt(table = \"...\")] on the struct".to_owned(),
                place: Place::Whole,
            },
        ),
    }
}

/// Whether a double colon stands at `at`.
pub open spec fn colons_at(tokens: Tokens, at: int) -> bool {
    punct_at(tokens, at, tokens.len() as int, ':') && punct_at(
        tokens,
        at + 1,
        tokens.len() as int,
        ':',
    )
}

fn sees_colons(tokens: &Vec<Token>, at: usize) -> (yes: bool)
    requires
        at <= tokens@.len(),
    ensures
        yes == colons_at(tokens_view(tokens@), at as int),
{
    sees_punct(tokens, at, 0, tokens.len(), ':') && sees_punct(tokens, at, 1, tokens.len(), ':')
}

/// The key of an argument: its last word, and whether that is all there is of it.
pub struct MetaKey {
    pub last: String,
    pub single: bool,
    pub next: usize,
}

/// What a [`MetaKey`] holds.
pub struct MetaKeyView {
    pub last: Seq<char>,
    pub single: bool,
    pub next: int,
}

impl View for MetaKey {
    type V = MetaKeyView;

    open spec fn view(&self) -> MetaKeyView {
        MetaKeyView { last: self.last@, single: self.single, next: self.next as int }
    }
}

/// The key that goes on at `at` after the word `last`.
pub open spec fn key_from(tokens: Tokens, at: int, last: Seq<char>, single: bool) -> Result<
    MetaKeyView,
    MisfitView,
>
    decreases tokens.len() - at,
{
    if 0 <= at && colons_at(tokens, at) {
        if at + 2 < tokens.len() && tokens[at + 2] is Word {
            key_from(tokens, at + 3, tokens[at + 2]->Word_text, false)
        } else {
            Err(expected(at + 2, tokens.len() as int, "expected ident"@))
        }
    } else {
        Ok(MetaKeyView { last, single, next: at })
    }
}

/// Whether a token is a literal.
pub open spec fn is_literal(token: TokenView) -> bool {
    token is Str || token is Char || token is Int || token is Float || token is Unfit
        || token is Literal
}

/// The key at `at`: words with double colons between them.
pub open spec fn key_at(tokens: Tokens, at: int) -> Result<MetaKeyView, MisfitView> {
    let end = tokens.len() as int;
    let start = if colons_at(tokens, at) {
        at + 2
    } else {
        at
    };
    if start < end && tokens[start] is Word {
        key_from(tokens, start + 1, tokens[start]->Word_text, start == at)
    } else if start >= end {
        Err(expected(start, end, "expected nested attribute"@))
    } else if is_literal(tokens[start]) {
        Err(expected(start, end, "unexpected literal in nested attribute, expected ident"@))
    } else {
        Err(expected(start, end, "unexpected token in nested attribute, expected ident"@))
    }
}

fn read_key(tokens: &Vec<Token>, at: usize) -> (result: Result<MetaKey, Misfit>)
    requires
        at <= tokens@.len(),
    ensures
        parsed(result) == key_at(tokens_view(tokens@), at as int),
        result matches Ok(key) ==> at < key.next <= tokens@.len(),
{
    let ghost view = tokens_view(tokens@);
    let end = tokens.len();
    let start = if sees_colons(tokens, at) {
        at + 2
    } else {
        at
    };
    match token_at(tokens, start, 0, end) {
        Some(Token::Word { text, keyword }) => {
            let mut last = text.clone();
            let mut single = start == at;
            let mut next: usize = start + 1;
            while sees_colons(tokens, next)
                invariant
                    at < next <= tokens@.len(),
                    end == tokens@.len(),
                    view == tokens_view(tokens@),
                    key_at(view, at as int) == key_from(view, next as int, last@, single),
                decreases tokens@.len() - next,
            {
                match token_at(tokens, next, 2, end) {
                    Some(Token::Word { text, keyword }) => {
                        last = text.clone();
                        single = false;
                        next += 3;
                    },
                    _ => return Err(expect(next, 2, end, "expected ident")),
                }
            }
            Ok(MetaKey { last, single, next })
        },
        None => Err(expect(start, 0, end, "expected nested attribute")),
        Some(token) => {
            let literal = match token {
                Token::Str(_) => true,
                Token::Char(_) => true,
                Token::Int(_) => true,
                Token::Float(_) => true,
                Token::Unfit(_) => true,
                Token::Literal => true,
                _ => false,
            };
            if literal {
                Err(
                    expect(
                        start,
                        0,
                        end,
                        "unexpected literal in nested attribute, expected ident",
                    ),
                )
            } else {
                Err(
                    expect(start, 0, end, "unexpected token in nested attribute, expected ident"),
                )
            }
        },
    }
}

/// Where the run of tokens from `from` on ends: before the next comma outside of brackets.
pub open spec fn run_end(tokens: Tokens, from: int, depth: nat) -> int
    decreases tokens.len() - from,
{
    if from < 0 || from >= tokens.len() {
        tokens.len() as int
    } else if tokens[from] is Open {
        run_end(tokens, from + 1, depth + 1)
    } else if tokens[from] is Close {
        if depth == 0 {
            from
        } else {
            run_end(tokens, from + 1, (depth - 1) as nat)
        }
    } else if depth == 0 && tokens[from] == TokenView::Punct(',') {
        from
    } else {
        run_end(tokens, from + 1, depth)
    }
}

fn find_run_end(tokens: &Vec<Token>, from: usize) -> (end: usize)
    requires
        from <= tokens@.len(),
    ensures
        end == run_end(tokens_view(tokens@), from as int, 0),
        from <= end <= tokens@.len(),
{
    let ghost view = tokens_view(tokens@);
    let mut depth: usize = 0;
    let mut i: usize = from;
    while i < tokens.len()
        invariant
            from <= i <= tokens@.len(),
            depth <= i - from,
            view == tokens_view(tokens@),
            run_end(view, from as int, 0) == run_end(view, i as int, depth as nat),
        decreases tokens@.len() - i,
    {
        assert(view[i as int] == tokens@[i as int]@);
        match &tokens[i] {
            Token::Open(_) => {
                depth += 1;
            },
            Token::Close => {
                if depth == 0 {
                    return i;
                }
                depth -= 1;
            },
            Token::Punct(c) => {
                if depth == 0 && *c == ',' {
                    return i;
                }
            },
            _ => {},
        }
        i += 1;
    }
    i
}

/// Where the type arguments that reach `at`, `depth` angle brackets deep, end.
pub open spec fn angles_end(tokens: Tokens, at: int, depth: nat) -> int
    decreases tokens.len() - at,
{
    if at < 0 || at >= tokens.len() {
        tokens.len() as int
    } else if tokens[at] == TokenView::Punct('<') {
        angles_end(tokens, at + 1, depth + 1)
    } else if tokens[at] == TokenView::Punct('>') && !(at > 0 && tokens[at - 1]
        == TokenView::Punct('-')) {
        if depth <= 1 {
            at + 1
        } else {
            angles_end(tokens, at + 1, (depth - 1) as nat)
        }
    } else {
        angles_end(tokens, at + 1, depth)
    }
}

fn find_angles_end(tokens: &Vec<Token>, from: usize) -> (end: usize)
    requires
        from <= tokens@.len(),
    ensures
        end == angles_end(tokens_view(tokens@), from as int, 1),
        from <= end <= tokens@.len(),
{
    let ghost view = tokens_view(tokens@);
    let mut deeper: usize = 0;
    let mut at: usize = from;
    while at < tokens.len()
        invariant
            from <= at <= tokens@.len(),
            deeper <= at - from,
            view == tokens_view(tokens@),
            angles_end(view, from as int, 1) == angles_end(view, at as int, (deeper + 1) as nat),
        decreases tokens@.len() - at,
    {
        assert(view[at as int] == tokens@[at as int]@);
        if let Token::Punct(c) = &tokens[at] {
            if *c == '<' {
                deeper += 1;
            } else if *c == '>' && !(at > 0 && sees_punct(tokens, at - 1, 0, tokens.len(), '-')) {
                if deeper == 0 {
                    return at + 1;
                }
                deeper -= 1;
            }
        }
        at += 1;
    }
    at
}

proof fn lemma_angles_end(tokens: Tokens, at: int, depth: nat)
    requires
        0 <= at <= tokens.len(),
    ensures
        at <= angles_end(tokens, at, depth) <= tokens.len(),
    decreases tokens.len() - at,
{
    if at < tokens.len() {
        lemma_angles_end(tokens, at + 1, depth + 1);
        lemma_angles_end(tokens, at + 1, depth);
        if depth > 1 {
            lemma_angles_end(tokens, at + 1, (depth - 1) as nat);
        }
    }
}

/// Where a path ends that has come to `at`: past all words and type arguments that double colons
/// lead to.
pub open spec fn segments_end(tokens: Tokens, at: int) -> int
    decreases tokens.len() - at,
    via segments_end_decreases
{
    if 0 <= at && colons_at(tokens, at) && at + 2 < tokens.len() {
        if tokens[at + 2] is Word {
            segments_end(tokens, at + 3)
        } else if tokens[at + 2] == TokenView::Punct('<') {
            segments_end(tokens, angles_end(tokens, at + 3, 1))
        } else {
            at
        }
    } else {
        at
    }
}

#[via_fn]
proof fn segments_end_decreases(tokens: Tokens, at: int) {
    if 0 <= at && at + 3 <= tokens.len() {
        lemma_angles_end(tokens, at + 3, 1);
    }
}

fn find_segments_end(tokens: &Vec<Token>, from: usize) -> (end: usize)
    requires
        from <= tokens@.len(),
    ensures
        end == segments_end(tokens_view(tokens@), from as int),
        from <= end <= tokens@.len(),
{
    let ghost view = tokens_view(tokens@);
    let end = tokens.len();
    let mut at: usize = from;
    loop
        invariant
            from <= at <= end,
            end == tokens@.len(),
            view == tokens_view(tokens@),
            segments_end(view, from as int) == segments_end(view, at as int),
        decreases tokens@.len() - at,
    {
        if !sees_colons(tokens, at) || end - at <= 2 {
            return at;
        }
        assert(view[at + 2] == tokens@[at + 2]@);
        match &tokens[at + 2] {
            Token::Word { text, keyword } => {
                at = at + 3;
            },
            Token::Punct(c) => {
                if *c == '<' {
                    at = find_angles_end(tokens, at + 3);
                } else {
                    return at;
                }
            },
            _ => return at,
        }
    }
}

proof fn lemma_segments_end(tokens: Tokens, at: int)
    requires
        0 <= at <= tokens.len(),
    ensures
        at <= segments_end(tokens, at) <= tokens.len(),
    decreases tokens.len() - at,
{
    if colons_at(tokens, at) && at + 2 < tokens.len() {
        lemma_segments_end(tokens, at + 3);
        lemma_angles_end(tokens, at + 3, 1);
        lemma_segments_end(tokens, angles_end(tokens, at + 3, 1));
    }
}

/// Where the path ends that begins at `from`, with or without a leading double colon; `from` where
/// none does.
pub open spec fn path_end(tokens: Tokens, from: int) -> int {
    let start = if colons_at(tokens, from) {
        from + 2
    } else {
        from
    };
    if start < tokens.len() && tokens[start] is Word {
        segments_end(tokens, start + 1)
    } else {
        from
    }
}

fn find_path_end(tokens: &Vec<Token>, from: usize) -> (end: usize)
    requires
        from <= tokens@.len(),
    ensures
        end == path_end(tokens_view(tokens@), from as int),
        from <= end <= tokens@.len(),
{
    let end = tokens.len();
    let start = if sees_colons(tokens, from) {
        from + 2
    } else {
        from
    };
    if let Some(Token::Word { text, keyword }) = token_at(tokens, start, 0, end) {
        find_segments_end(tokens, start + 1)
    } else {
        from
    }
}

fn sees_literal(tokens: &Vec<Token>, at: usize) -> (yes: bool)
    requires
        at <= tokens@.len(),
    ensures
        yes == (at < tokens@.len() && is_literal(tokens_view(tokens@)[at as int])),
{
    if at == tokens.len() {
        return false;
    }
    assert(tokens_view(tokens@)[at as int] == tokens@[at as int]@);
    match &tokens[at] {
        Token::Str(_) => true,
        Token::Char(_) => true,
        Token::Int(_) => true,
        Token::Float(_) => true,
        Token::Unfit(_) => true,
        Token::Literal => true,
        _ => false,
    }
}

/// Whether a punctuation character can go on with an expression.
pub open spec fn is_operator(c: char) -> bool {
    c == '+' || c == '-' || c == '*' || c == '/' || c == '%' || c == '^' || c == '&' || c == '|'
        || c == '<' || c == '>' || c == '=' || c == '!' || c == '.' || c == '?'
}

/// Whether the token at `at` goes on with the expression before it: an operator, a bracket (a brace
/// only behind a path), or the word of a cast.
pub open spec fn goes_on(tokens: Tokens, at: int, path: bool) -> bool {
    at < tokens.len() && match tokens[at] {
        TokenView::Punct(c) => is_operator(c),
        TokenView::Open(c) => path || c != '{',
        TokenView::Word { text, keyword } => text == "as"@,
        _ => false,
    }
}

fn sees_more(tokens: &Vec<Token>, at: usize, path: bool) -> (yes: bool)
    requires
        at <= tokens@.len(),
    ensures
        yes == goes_on(tokens_view(tokens@), at as int, path),
{
    if at == tokens.len() {
        return false;
    }
    assert(tokens_view(tokens@)[at as int] == tokens@[at as int]@);
    match &tokens[at] {
        Token::Punct(c) => {
            let c = *c;
            c == '+' || c == '-' || c == '*' || c == '/' || c == '%' || c == '^' || c == '&' || c
                == '|' || c == '<' || c == '>' || c == '=' || c == '!' || c == '.' || c == '?'
        },
        Token::Open(c) => path || *c != '{',
        Token::Word { text, keyword } => same_text(text.as_str(), "as"),
        _ => false,
    }
}

/// Where the expression that begins at `from` ends: behind a literal or a path that nothing goes on
/// with, otherwise before the next comma outside of brackets.
pub open spec fn expression_end(tokens: Tokens, from: int) -> int {
    let path = path_end(tokens, from);
    if from < tokens.len() && is_literal(tokens[from]) && !goes_on(tokens, from + 1, false) {
        from + 1
    } else if path > from && !goes_on(tokens, path, true) {
        path
    } else {
        run_end(tokens, from, 0)
    }
}

fn find_expression_end(tokens: &Vec<Token>, from: usize) -> (end: usize)
    requires
        from <= tokens@.len(),
    ensures
        end == expression_end(tokens_view(tokens@), from as int),
        from <= end <= tokens@.len(),
{
    if from < tokens.len() && sees_literal(tokens, from) && !sees_more(tokens, from + 1, false) {
        return from + 1;
    }
    let path = find_path_end(tokens, from);
    if path > from && !sees_more(tokens, path, true) {
        return path;
    }
    find_run_end(tokens, from)
}

proof fn lemma_expression_end(tokens: Tokens, from: int)
    requires
        0 <= from <= tokens.len(),
    ensures
        from <= expression_end(tokens, from) <= tokens.len(),
{
    lemma_run_end(tokens, from, 0);
    if from < tokens.len() {
        lemma_segments_end(tokens, from + 1);
    }
    if from + 3 <= tokens.len() {
        lemma_segments_end(tokens, from + 3);
    }
}

/// The skeleton default that the tokens from `from` up to `to` stand for: a literal, or the word
/// for the current time.
pub open spec fn skeleton_at(tokens: Tokens, from: int, to: int) -> Result<
    SkeletonView,
    MisfitView,
> {
    if from >= to {
        Err(expected(from, tokens.len() as int, "expected an expression"@))
    } else if to == from + 1 {
        match tokens[from] {
            TokenView::Word { text, keyword } => if text == "true"@ {
                Ok(SkeletonView::Literal(SqlValue::Integer(1)))
            } else if text == "false"@ {
                Ok(SkeletonView::Literal(SqlValue::Integer(0)))
            } else if text == "now_rfc3339"@ {
                Ok(SkeletonView::NowRfc3339)
            } else {
                Err(
                    MisfitView {
                        message:
                            "unknown skeleton keyword; expected `now_rfc3339` or a literal"@,
                        at: from,
                    },
                )
            },
            TokenView::Str(s) => Ok(SkeletonView::Literal(SqlValue::Text(s))),
            TokenView::Int(i) => Ok(SkeletonView::Literal(SqlValue::Integer(i))),
            TokenView::Float(r) => Ok(SkeletonView::Literal(SqlValue::Real(r))),
            TokenView::Unfit(message) => Err(MisfitView { message, at: from }),
            TokenView::Char(c) => Err(unsupported_literal(from)),
            TokenView::Literal => Err(unsupported_literal(from)),
            _ => Err(no_literal(from)),
        }
    } else if path_end(tokens, from) == to {
        Err(
            MisfitView {
                message: "unknown skeleton keyword; expected `now_rfc3339` or a literal"@,
                at: from,
            },
        )
    } else {
        Err(no_literal(from))
    }
}

/// The error of a literal that cannot be a skeleton default.
pub open spec fn unsupported_literal(at: int) -> MisfitView {
    MisfitView {
        message: "unsupported skeleton literal; use a string, integer, float, or bool"@,
        at,
    }
}

/// The error of what is neither a literal nor a word.
pub open spec fn no_literal(at: int) -> MisfitView {
    MisfitView {
        message:
            "skeleton must be a literal (string / integer / float / bool) or `now_rfc3339`"@,
        at,
    }
}

fn read_skeleton(tokens: &Vec<Token>, from: usize, to: usize) -> (result: Result<
    SkeletonValue,
    Misfit,
>)
    requires
        from <= to <= tokens@.len(),
    ensures
        parsed(result) == skeleton_at(tokens_view(tokens@), from as int, to as int),
{
    if from == to {
        return Err(expect(from, 0, tokens.len(), "expected an expression"));
    }
    let unknown = "unknown skeleton keyword; expected `now_rfc3339` or a literal";
    let unsupported = "unsupported skeleton literal; use a string, integer, float, or bool";
    let neither = "skeleton must be a literal (string / integer / float / bool) or `now_rfc3339`";
    assert(tokens_view(tokens@)[from as int] == tokens@[from as int]@);
    if to - from == 1 {
        match &tokens[from] {
            Token::Word { text, keyword } => if same_text(text.as_str(), "true") {
                Ok(SkeletonValue::Literal(Value::Integer(1)))
            } else if same_text(text.as_str(), "false") {
                Ok(SkeletonValue::Literal(Value::Integer(0)))
            } else if same_text(text.as_str(), "now_rfc3339") {
                Ok(SkeletonValue::NowRfc3339)
            } else {
                Err(Misfit { message: unknown.to_owned(), at: from })
            },
            Token::Str(s) => Ok(SkeletonValue::Literal(Value::Text(s.clone()))),
            Token::Int(i) => Ok(SkeletonValue::Literal(Value::Integer(*i))),
            Token::Float(r) => Ok(SkeletonValue::Literal(Value::Real(r.copy()))),
            Token::Unfit(message) => Err(Misfit { message: message.clone(), at: from }),
            Token::Char(_) => Err(Misfit { message: unsupported.to_owned(), at: from }),
            Token::Literal => Err(Misfit { message: unsupported.to_owned(), at: from }),
            _ => Err(Misfit { message: neither.to_owned(), at: from }),
        }
    } else if find_path_end(tokens, from) == to {
        Err(Misfit { message: unknown.to_owned(), at: from })
    } else {
        Err(Misfit { message: neither.to_owned(), at: from })
    }
}

/// What the attributes of a field say.
pub struct FieldAttrs {
    pub is_pk: bool,
    pub skip: bool,
    pub rename: Option<String>,
    pub skeleton: Option<SkeletonValue>,
}

/// What a [`FieldAttrs`] holds.
pub struct FieldAttrsView {
    pub is_pk: bool,
    pub skip: bool,
    pub rename: Option<Seq<char>>,
    pub skeleton: Option<SkeletonView>,
}

impl View for FieldAttrs {
    type V = FieldAttrsView;

    open spec fn view(&self) -> FieldAttrsView {
        FieldAttrsView {
            is_pk: self.is_pk,
            skip: self.skip,
            rename: match self.rename {
                Some(name) => Some(name@),
                None => None,
            },
            skeleton: match self.skeleton {
                Some(value) => Some(value@),
                None => None,
            },
        }
    }
}

/// What a field's attributes say with one more argument, whose key is `key` and starts at `at`;
/// and where the next token is.
pub open spec fn with_meta(tokens: Tokens, at: int, key: MetaKeyView, sofar: FieldAttrsView) -> Result<
    (FieldAttrsView, int),
    MisfitView,
> {
    let end = tokens.len() as int;
    let next = key.next;
    if key.single && key.last == "pk"@ {
        Ok((FieldAttrsView { is_pk: true, ..sofar }, next))
    } else if key.single && key.last == "skip"@ {
        Ok((FieldAttrsView { skip: true, ..sofar }, next))
    } else if key.single && key.last == "rename"@ {
        if !punct_at(tokens, next, end, '=') {
            Err(expected(next, end, "expected `=`"@))
        } else if !(next + 1 < end && tokens[next + 1] is Str) {
            Err(expected(next + 1, end, "expected string literal"@))
        } else {
            Ok((FieldAttrsView { rename: Some(tokens[next + 1]->Str_0), ..sofar }, next + 2))
        }
    } else if key.single && key.last == "skeleton"@ {
        if !punct_at(tokens, next, end, '=') {
            Err(expected(next, end, "expected `=`"@))
        } else {
            match skeleton_at(tokens, next + 1, expression_end(tokens, next + 1)) {
                Err(misfit) => Err(misfit),
                Ok(value) => Ok(
                    (
                        FieldAttrsView { skeleton: Some(value), ..sofar },
                        expression_end(tokens, next + 1),
                    ),
                ),
            }
        }
    } else {
        Err(
            MisfitView {
                message: "unknown crdt(...) key `"@ + key.last
                    + "` on this field; expected `pk`, `skip`, `rename`, or `skeleton`"@,
                at,
            },
        )
    }
}

fn read_meta(tokens: &Vec<Token>, at: usize, key: &MetaKey, attrs: &mut FieldAttrs) -> (result:
    Result<usize, Misfit>)
    requires
        at < key.next <= tokens@.len(),
    ensures
        match result {
            Ok(next) => with_meta(tokens_view(tokens@), at as int, key@, old(attrs)@) == Ok::<
                (FieldAttrsView, int),
                MisfitView,
            >((final(attrs)@, next as int)) && key.next <= next <= tokens@.len(),
            Err(misfit) => with_meta(tokens_view(tokens@), at as int, key@, old(attrs)@) == Err::<
                (FieldAttrsView, int),
                MisfitView,
            >(misfit@),
        },
{
    let end = tokens.len();
    let next = key.next;
    if key.single && same_text(key.last.as_str(), "pk") {
        attrs.is_pk = true;
        Ok(next)
    } else if key.single && same_text(key.last.as_str(), "skip") {
        attrs.skip = true;
        Ok(next)
    } else if key.single && same_text(key.last.as_str(), "rename") {
        if !sees_punct(tokens, next, 0, end, '=') {
            return Err(expect(next, 0, end, "expected `=`"));
        }
        if let Some(Token::Str(name)) = token_at(tokens, next, 1, end) {
            attrs.rename = Some(name.clone());
            return Ok(next + 2);
        }
        Err(expect(next, 1, end, "expected string literal"))
    } else if key.single && same_text(key.last.as_str(), "skeleton") {
        if !sees_punct(tokens, next, 0, end, '=') {
            return Err(expect(next, 0, end, "expected `=`"));
        }
        let to = find_expression_end(tokens, next + 1);
        let value = read_skeleton(tokens, next + 1, to)?;
        attrs.skeleton = Some(value);
        Ok(to)
    } else {
        let mut message = "unknown crdt(...) key `".to_owned();
        message.append(key.last.as_str());
        message.append("` on this field; expected `pk`, `skip`, `rename`, or `skeleton`");
        Err(Misfit { message, at })
    }
}

proof fn lemma_run_end(tokens: Tokens, from: int, depth: nat)
    requires
        0 <= from <= tokens.len(),
    ensures
        from <= run_end(tokens, from, depth) <= tokens.len(),
    decreases tokens.len() - from,
{
    if from < tokens.len() {
        if tokens[from] is Open {
            lemma_run_end(tokens, from + 1, depth + 1);
        } else if tokens[from] is Close {
            if depth > 0 {
                lemma_run_end(tokens, from + 1, (depth - 1) as nat);
            }
        } else if !(depth == 0 && tokens[from] == TokenView::Punct(',')) {
            lemma_run_end(tokens, from + 1, depth);
        }
    }
}

proof fn lemma_key_from(tokens: Tokens, at: int, last: Seq<char>, single: bool)
    requires
        0 <= at <= tokens.len(),
    ensures
        key_from(tokens, at, last, single) matches Ok(key) ==> at <= key.next <= tokens.len(),
    decreases tokens.len() - at,
{
    if colons_at(tokens, at) && at + 2 < tokens.len() && tokens[at + 2] is Word {
        lemma_key_from(tokens, at + 3, tokens[at + 2]->Word_text, false);
    }
}

/// The arguments of a field's attribute from `at` on, separated by commas, added to `sofar`.
pub open spec fn metas_from(tokens: Tokens, at: int, sofar: FieldAttrsView) -> Result<
    FieldAttrsView,
    MisfitView,
>
    decreases tokens.len() + 1 - at,
    via metas_from_decreases
{
    if at < 0 || at >= tokens.len() {
        Ok(sofar)
    } else {
        match key_at(tokens, at) {
            Err(misfit) => Err(misfit),
            Ok(key) => match with_meta(tokens, at, key, sofar) {
                Err(misfit) => Err(misfit),
                Ok((attrs, next)) => if next < tokens.len() && !punct_at(
                    tokens,
                    next,
                    tokens.len() as int,
                    ',',
                ) {
                    Err(expected(next, tokens.len() as int, "expected `,`"@))
                } else {
                    metas_from(tokens, next + 1, attrs)
                },
            },
        }
    }
}

#[via_fn]
proof fn metas_from_decreases(tokens: Tokens, at: int, sofar: FieldAttrsView) {
    if 0 <= at < tokens.len() {
        let start = if colons_at(tokens, at) {
            at + 2
        } else {
            at
        };
        if start < tokens.len() && tokens[start] is Word {
            lemma_key_from(tokens, start + 1, tokens[start]->Word_text, start == at);
            if let Ok(key) = key_at(tokens, at) {
                if key.next + 1 <= tokens.len() {
                    lemma_expression_end(tokens, key.next + 1);
                }
            }
        }
    }
}

fn read_metas(tokens: &Vec<Token>, attrs: &mut FieldAttrs) -> (result: Result<(), Misfit>)
    ensures
        match result {
            Ok(()) => metas_from(tokens_view(tokens@), 0, old(attrs)@) == Ok::<
                FieldAttrsView,
                MisfitView,
            >(final(attrs)@),
            Err(misfit) => metas_from(tokens_view(tokens@), 0, old(attrs)@) == Err::<
                FieldAttrsView,
                MisfitView,
            >(misfit@),
        },
{
    let ghost view = tokens_view(tokens@);
    let mut at: usize = 0;
    while at < tokens.len()
        invariant
            view == tokens_view(tokens@),
            metas_from(view, 0, old(attrs)@) == metas_from(view, at as int, attrs@),
        decreases tokens@.len() - at,
    {
        let key = read_key(tokens, at)?;
        let next = read_meta(tokens, at, &key, attrs)?;
        if next < tokens.len() && !sees_punct(tokens, next, 0, tokens.len(), ',') {
            return Err(expect(next, 0, tokens.len(), "expected `,`"));
        }
        if next < tokens.len() {
            at = next + 1;
        } else {
            at = tokens.len();
            assert(metas_from(view, at as int, attrs@) == metas_from(view, next + 1, attrs@));
        }
    }
    Ok(())
}

/// What the attributes of a field from the one at `i` on say, added to `sofar`.
pub open spec fn field_attrs_from(
    attrs: Seq<(Seq<char>, FormView)>,
    field: usize,
    i: int,
    sofar: FieldAttrsView,
) -> Result<FieldAttrsView, DiagnosticView>
    decreases attrs.len() - i,
{
    if i < 0 || i >= attrs.len() {
        Ok(sofar)
    } else if attrs[i].0 != "crdt"@ {
        field_attrs_from(attrs, field, i + 1, sofar)
    } else {
        match attrs[i].1 {
            FormView::Bare => Err(
                DiagnosticView {
                    message: "expected attribute arguments in parentheses: #[crdt(...)]"@,
                    place: Place::FieldAttribute { field, attr: i as usize },
                },
            ),
            FormView::NameValue => Err(
                DiagnosticView {
                    message: "expected parentheses: #[crdt(...)]"@,
                    place: Place::FieldAttribute { field, attr: i as usize },
                },
            ),
            FormView::List(tokens) => match metas_from(tokens, 0, sofar) {
                Ok(attrs_sofar) => field_attrs_from(attrs, field, i + 1, attrs_sofar),
                Err(misfit) => Err(
                    DiagnosticView {
                        message: misfit.message,
                        place: Place::FieldArgument {
                            field,
                            attr: i as usize,
                            token: misfit.at as usize,
                        },
                    },
                ),
            },
        }
    }
}

/// What a field without attributes says.
pub open spec fn plain() -> FieldAttrsView {
    FieldAttrsView { is_pk: false, skip: false, rename: None, skeleton: None }
}

/// Parses the `#[crdt(...)]` attributes of a field.
fn parse_field_attrs(attrs: &Vec<Attribute>, field: usize) -> (result: Result<
    FieldAttrs,
    Diagnostic,
>)
    ensures
        match result {
            Ok(said) => field_attrs_from(attributes_view(attrs@), field, 0, plain()) == Ok::<
                FieldAttrsView,
                DiagnosticView,
            >(said@),
            Err(diagnostic) => field_attrs_from(attributes_view(attrs@), field, 0, plain())
                == Err::<FieldAttrsView, DiagnosticView>(diagnostic@),
        },
{
    let ghost views = attributes_view(attrs@);
    let mut said = FieldAttrs { is_pk: false, skip: false, rename: None, skeleton: None };
    let mut i: usize = 0;
    while i < attrs.len()
        invariant
            i <= attrs@.len(),
            views == attributes_view(attrs@),
            field_attrs_from(views, field, 0, plain()) == field_attrs_from(
                views,
                field,
                i as int,
                said@,
            ),
        decreases attrs@.len() - i,
    {
        assert(views[i as int] == attrs@[i as int]@);
        if same_text(attrs[i].path.as_str(), "crdt") {
            match &attrs[i].form {
                Form::Bare => return Err(
                    Diagnostic {
                        message: "expected attribute arguments in parentheses: #[crdt(...)]".to_owned(),
                        place: Place::FieldAttribute { field, attr: i },
                    },
                ),
                Form::NameValue => return Err(
                    Diagnostic {
                        message: "expected parentheses: #[crdt(...)]".to_owned(),
                        place: Place::FieldAttribute { field, attr: i },
                    },
                ),
                Form::List(tokens) => match read_metas(tokens, &mut said) {
                    Ok(()) => {},
                    Err(misfit) => return Err(
                        Diagnostic {
                            message: misfit.message,
                            place: Place::FieldArgument { field, attr: i, token: misfit.at },
                        },
                    ),
                },
            }
        }
        i += 1;
    }
    Ok(said)
}

/// The name of a column's constant: upper-case ASCII letters, and underscores for hyphens.
pub open spec fn screaming(name: Seq<char>) -> Seq<char> {
    Seq::new(name.len(), |i: int| screaming_char(name[i]))
}

/// A character in the name of a column's constant.
pub open spec fn screaming_char(c: char) -> char {
    if c == '-' {
        '_'
    } else if 'a' <= c && c <= 'z' {
        (c as int - 32) as char
    } else {
        c
    }
}

fn upper(c: char) -> (u: char)
    ensures
        u == screaming_char(c),
{
    if c == '-' {
        '_'
    } else if 'a' <= c && c <= 'z' {
        ((c as u32 - 32) as u8) as char
    } else {
        c
    }
}

/// Converts a column name to the name of a constant.
pub fn screaming_snake(name: &str) -> (text: String)
    ensures
        text@ == screaming(name@),
{
    let chars = chars_of(name);
    let mut text = String::new();
    for i in 0..chars.len()
        invariant
            text@ == screaming(chars@.take(i as int)),
    {
        let ghost before = text@;
        text.push(upper(chars[i]));
        assert(text@ =~= screaming(chars@.take(i + 1))) by {
            assert forall|k: int| 0 <= k < i + 1 implies text@[k] == screaming(
                chars@.take(i + 1),
            )[k] by {
                if k < i {
                    assert(text@[k] == before[k]);
                    assert(chars@.take(i as int)[k] == chars@.take(i + 1)[k]);
                }
            }
        }
    }
    assert(chars@.take(chars@.len() as int) =~= chars@);
    text
}

/// One column that is synced: its name in the database, the name of its constant, and its skeleton
/// default if it has one.
#[derive(Debug)]
pub struct Column {
    pub db_name: String,
    pub const_name: String,
    pub skeleton: Option<SkeletonValue>,
}

/// What a [`Column`] holds.
pub struct ColumnView {
    pub db_name: Seq<char>,
    pub const_name: Seq<char>,
    pub skeleton: Option<SkeletonView>,
}

impl View for Column {
    type V = ColumnView;

    open spec fn view(&self) -> ColumnView {
        ColumnView {
            db_name: self.db_name@,
            const_name: self.const_name@,
            skeleton: match self.skeleton {
                Some(value) => Some(value@),
                None => None,
            },
        }
    }
}

/// What a list of columns holds.
pub open spec fn columns_view(columns: Seq<Column>) -> Seq<ColumnView> {
    columns.map_values(|column: Column| column@)
}

/// A constant that names a column.
#[derive(Debug)]
pub struct Constant {
    pub name: String,
    pub value: String,
}

impl View for Constant {
    type V = (Seq<char>, Seq<char>);

    open spec fn view(&self) -> (Seq<char>, Seq<char>) {
        (self.name@, self.value@)
    }
}

/// What a list of constants holds.
pub open spec fn constants_view(constants: Seq<Constant>) -> Seq<(Seq<char>, Seq<char>)> {
    constants.map_values(|constant: Constant| constant@)
}

/// What the fields of a struct make up: the columns that are synced, and the field that is the
/// key, by its constant and its name in the database.
pub struct Layout {
    pub columns: Vec<Column>,
    pub pk: Option<Constant>,
}

/// What a [`Layout`] holds.
pub struct LayoutView {
    pub columns: Seq<ColumnView>,
    pub pk: Option<(Seq<char>, Seq<char>)>,
}

impl View for Layout {
    type V = LayoutView;

    open spec fn view(&self) -> LayoutView {
        LayoutView {
            columns: columns_view(self.columns@),
            pk: match self.pk {
                Some(constant) => Some(constant@),
                None => None,
            },
        }
    }
}

/// The error of a field.
pub open spec fn at_field<T>(field: usize, message: Seq<char>) -> Result<T, DiagnosticView> {
    Err(DiagnosticView { message, place: Place::Field(field) })
}

/// What the fields make up with one more field, which is called `ident` and says `attrs`. Fields
/// named in `keys` are key columns.
pub open spec fn with_field(
    ident: Seq<char>,
    field: usize,
    attrs: FieldAttrsView,
    keys: Seq<Seq<char>>,
    sofar: LayoutView,
) -> Result<LayoutView, DiagnosticView> {
    let db_name = match attrs.rename {
        Some(name) => name,
        None => ident,
    };
    if attrs.skip {
        if attrs.rename is Some || attrs.skeleton is Some {
            at_field(field, "#[crdt(skip)] cannot be combined with rename or skeleton"@)
        } else {
            Ok(sofar)
        }
    } else if attrs.is_pk {
        if attrs.skeleton is Some {
            at_field(field, "a #[crdt(pk)] field cannot also have a skeleton default"@)
        } else if sofar.pk is Some {
            at_field(field, "only one #[crdt(pk)] field is allowed"@)
        } else {
            Ok(LayoutView { pk: Some((screaming(ident), db_name)), ..sofar })
        }
    } else if keys.contains(db_name) {
        if attrs.skeleton is Some {
            at_field(field, "a composite key column cannot also have a skeleton default"@)
        } else {
            Ok(sofar)
        }
    } else {
        Ok(
            LayoutView {
                columns: sofar.columns.push(
                    ColumnView {
                        db_name,
                        const_name: screaming(ident),
                        skeleton: attrs.skeleton,
                    },
                ),
                ..sofar
            },
        )
    }
}

/// What the fields from the one at `i` on make up, added to `sofar`.
pub open spec fn layout_from(
    fields: Seq<FieldView>,
    keys: Seq<Seq<char>>,
    i: int,
    sofar: LayoutView,
) -> Result<LayoutView, DiagnosticView>
    decreases fields.len() - i,
{
    if i < 0 || i >= fields.len() {
        Ok(sofar)
    } else {
        match field_attrs_from(fields[i].attrs, i as usize, 0, plain()) {
            Err(diagnostic) => Err(diagnostic),
            Ok(attrs) => match with_field(fields[i].ident, i as usize, attrs, keys, sofar) {
                Err(diagnostic) => Err(diagnostic),
                Ok(layout) => layout_from(fields, keys, i + 1, layout),
            },
        }
    }
}

fn field_error(field: usize, message: &str) -> (diagnostic: Diagnostic)
    ensures
        diagnostic@ == (DiagnosticView { message: message@, place: Place::Field(field) }),
{
    Diagnostic { message: message.to_owned(), place: Place::Field(field) }
}

fn holds_text(texts: &Vec<String>, text: &str) -> (yes: bool)
    ensures
        yes == texts_view(texts@).contains(text@),
{
    for i in 0..texts.len()
        invariant
            forall|k: int| 0 <= k < i ==> texts@[k]@ != text@,
    {
        if same_text(texts[i].as_str(), text) {
            assert(texts_view(texts@)[i as int] == text@);
            return true;
        }
    }
    assert(!texts_view(texts@).contains(text@));
    false
}

fn add_field(
    ident: &String,
    field: usize,
    attrs: FieldAttrs,
    keys: &Vec<String>,
    layout: &mut Layout,
) -> (result: Result<(), Diagnostic>)
    ensures
        match result {
            Ok(()) => with_field(ident@, field, attrs@, texts_view(keys@), old(layout)@) == Ok::<
                LayoutView,
                DiagnosticView,
            >(final(layout)@),
            Err(diagnostic) => with_field(
                ident@,
                field,
                attrs@,
                texts_view(keys@),
                old(layout)@,
            ) == Err::<LayoutView, DiagnosticView>(diagnostic@),
        },
{
    if attrs.skip {
        if attrs.rename.is_some() || attrs.skeleton.is_some() {
            return Err(
                field_error(field, "#[crdt(skip)] cannot be combined with rename or skeleton"),
            );
        }
        return Ok(());
    }
    if attrs.is_pk {
        if attrs.skeleton.is_some() {
            return Err(
                field_error(field, "a #[crdt(pk)] field cannot also have a skeleton default"),
            );
        }
        if layout.pk.is_some() {
            return Err(field_error(field, "only one #[crdt(pk)] field is allowed"));
        }
    }
    // The constant is named after the field; the value honors rename.
    let const_name = screaming_snake(ident.as_str());
    let db_name = match attrs.rename {
        Some(name) => name,
        None => ident.clone(),
    };
    if attrs.is_pk {
        layout.pk = Some(Constant { name: const_name, value: db_name });
        return Ok(());
    }
    // Composite key columns are keys, not synced columns.
    if holds_text(keys, db_name.as_str()) {
        if attrs.skeleton.is_some() {
            return Err(
                field_error(field, "a composite key column cannot also have a skeleton default"),
            );
        }
        return Ok(());
    }
    let column = Column { db_name, const_name, skeleton: attrs.skeleton };
    layout.columns.push(column);
    assert(columns_view(layout.columns@) =~= columns_view(old(layout).columns@).push(column@));
    Ok(())
}

/// What a struct's declaration amounts to.
#[derive(Debug)]
pub struct Plan {
    /// The table that it describes.
    pub table: TableSpec,
    /// The constants for its columns, then the one for its key column if that is a single one.
    pub constants: Vec<Constant>,
    /// The names of the constants for all synced columns, in the order of their declaration.
    pub all: Vec<String>,
}

/// What a [`Plan`] holds.
pub struct PlanView {
    pub table: TableView,
    pub constants: Seq<(Seq<char>, Seq<char>)>,
    pub all: Seq<Seq<char>>,
}

impl View for Plan {
    type V = PlanView;

    open spec fn view(&self) -> PlanView {
        PlanView {
            table: self.table@,
            constants: constants_view(self.constants@),
            all: texts_view(self.all@),
        }
    }
}

/// The skeleton defaults of the columns that have one.
pub open spec fn skeletons(columns: Seq<ColumnView>) -> Seq<(Seq<char>, SkeletonView)>
    decreases columns.len(),
{
    if columns.len() == 0 {
        Seq::empty()
    } else {
        match columns.last().skeleton {
            Some(value) => skeletons(columns.drop_last()).push((columns.last().db_name, value)),
            None => skeletons(columns.drop_last()),
        }
    }
}

/// The plan for a table with a key of the given shape and columns; `pk` is the constant of its key
/// column, if that is a single one.
pub open spec fn plan_of(
    name: Seq<char>,
    shape: PkView,
    pk: Option<(Seq<char>, Seq<char>)>,
    columns: Seq<ColumnView>,
) -> PlanView {
    let constants = Seq::new(
        columns.len(),
        |i: int| (columns[i].const_name, columns[i].db_name),
    );
    PlanView {
        table: TableView {
            name,
            columns: Seq::new(columns.len(), |i: int| columns[i].db_name),
            pk: shape,
            skeleton: skeletons(columns),
        },
        constants: match pk {
            Some(constant) => constants.push(constant),
            None => constants,
        },
        all: Seq::new(columns.len(), |i: int| columns[i].const_name),
    }
}

/// The plan for a struct with the fields' layout and the composite key of its attributes: it has
/// to have exactly one of a key field and a composite key.
pub open spec fn resolve(
    name: Seq<char>,
    layout: LayoutView,
    composite: Option<(CompositeView, int)>,
) -> Result<PlanView, DiagnosticView> {
    match (layout.pk, composite) {
        (Some(pk), Some((key, attr))) => Err(
            DiagnosticView {
                message:
                    "a struct cannot have both a #[crdt(pk)] field and a composite pk = (...)"@,
                place: Place::Argument { attr: attr as usize, token: key.at as usize },
            },
        ),
        (Some(pk), None) => Ok(
            plan_of(name, PkView::Single { column: pk.1 }, Some(pk), layout.columns),
        ),
        (None, Some((key, attr))) => Ok(
            plan_of(
                name,
                PkView::Composite { columns: (key.a, key.b), sep: key.sep },
                None,
                layout.columns,
            ),
        ),
        (None, None) => Err(
            DiagnosticView {
                message:
                    "a Crdt struct needs a primary key: mark a field with #[crdt(pk)] or declare a composite key with #[crdt(table = \"...\", pk = (a, b; sep = ':'))]"@,
                place: Place::Name,
            },
        ),
    }
}

/// The columns of a composite key.
pub open spec fn composite_keys(composite: Option<(CompositeView, int)>) -> Seq<Seq<char>> {
    match composite {
        Some((key, attr)) => seq![key.a, key.b],
        None => Seq::empty(),
    }
}

/// The plan for a declaration, or the first error in it.
pub open spec fn expanded(input: DeclarationView) -> Result<PlanView, DiagnosticView> {
    if input.generic {
        Err(
            DiagnosticView {
                message: "#[derive(Crdt)] does not support generic types"@,
                place: Place::Generics,
            },
        )
    } else {
        match container_of(input.attrs) {
            Err(diagnostic) => Err(diagnostic),
            Ok((table, composite)) => match input.body {
                BodyView::Unnamed => Err(
                    DiagnosticView {
                        message: "#[derive(Crdt)] requires a struct with named fields"@,
                        place: Place::Whole,
                    },
                ),
                BodyView::Other => Err(
                    DiagnosticView {
                        message: "#[derive(Crdt)] can only be applied to structs"@,
                        place: Place::Whole,
                    },
                ),
                BodyView::Named(fields) => match layout_from(
                    fields,
                    composite_keys(composite),
                    0,
                    LayoutView { columns: Seq::empty(), pk: None },
                ) {
                    Err(diagnostic) => Err(diagnostic),
                    Ok(layout) => resolve(table, layout, composite),
                },
            },
        }
    }
}

/// Builds the plan for a table.
fn codegen(name: String, shape: PkSpec, pk: Option<Constant>, columns: Vec<Column>) -> (plan: Plan)
    ensures
        plan@ == plan_of(
            name@,
            shape@,
            match pk {
                Some(constant) => Some(constant@),
                None => None,
            },
            columns_view(columns@),
        ),
{
    let ghost views = columns_view(columns@);
    let mut names: Vec<String> = Vec::new();
    let mut skeleton: Vec<(String, SkeletonValue)> = Vec::new();
    let mut constants: Vec<Constant> = Vec::new();
    let mut all: Vec<String> = Vec::new();
    assert(skeleton_view(skeleton@) =~= skeletons(views.take(0)));
    for i in 0..columns.len()
        invariant
            views == columns_view(columns@),
            names@.len() == i,
            constants@.len() == i,
            all@.len() == i,
            forall|k: int| 0 <= k < i ==> #[trigger] names@[k]@ == views[k].db_name,
            forall|k: int| 0 <= k < i ==> #[trigger] all@[k]@ == views[k].const_name,
            forall|k: int|
                0 <= k < i ==> #[trigger] constants@[k]@ == (views[k].const_name, views[k].db_name),
            skeleton_view(skeleton@) == skeletons(views.take(i as int)),
    {
        let column = &columns[i];
        assert(views.take(i + 1).drop_last() =~= views.take(i as int));
        assert(views[i as int] == column@);
        names.push(column.db_name.clone());
        all.push(column.const_name.clone());
        constants.push(
            Constant { name: column.const_name.clone(), value: column.db_name.clone() },
        );
        if let Some(value) = &column.skeleton {
            let ghost sofar = skeleton@;
            let entry = (column.db_name.clone(), value.clone());
            skeleton.push(entry);
            assert(skeleton_view(skeleton@) =~= skeleton_view(sofar).push((entry.0@, entry.1@)));
        }
    }
    assert(views.take(views.len() as int) =~= views);
    assert(texts_view(names@) =~= Seq::new(views.len(), |i: int| views[i].db_name));
    assert(texts_view(all@) =~= Seq::new(views.len(), |i: int| views[i].const_name));
    let ghost column_constants = Seq::new(
        views.len(),
        |i: int| (views[i].const_name, views[i].db_name),
    );
    assert(constants_view(constants@) =~= column_constants);
    if let Some(constant) = pk {
        let ghost sofar = constants@;
        constants.push(constant);
        assert(constants_view(constants@) =~= column_constants.push(constant@));
    }
    Plan { table: TableSpec { name, columns: names, pk: shape, skeleton }, constants, all }
}

/// Works out what a struct's declaration amounts to.
pub fn expand(input: Declaration) -> (result: Result<Plan, Diagnostic>)
    ensures
        match result {
            Ok(plan) => expanded(input@) == Ok::<PlanView, DiagnosticView>(plan@),
            Err(diagnostic) => expanded(input@) == Err::<PlanView, DiagnosticView>(diagnostic@),
        },
{
    if input.generic {
        return Err(
            Diagnostic {
                message: "#[derive(Crdt)] does not support generic types".to_owned(),
                place: Place::Generics,
            },
        );
    }
    let (table, composite) = parse_container(&input.attrs)?;
    let fields = match input.body {
        Body::Named(fields) => fields,
        Body::Unnamed => return Err(
            Diagnostic {
                message: "#[derive(Crdt)] requires a struct with named fields".to_owned(),
                place: Place::Whole,
            },
        ),
        Body::Other => return Err(
            Diagnostic {
                message: "#[derive(Crdt)] can only be applied to structs".to_owned(),
                place: Place::Whole,
            },
        ),
    };
    // Fields with the names of a composite key's columns are key columns.
    let mut keys: Vec<String> = Vec::new();
    let ghost mut noted: Option<(CompositeView, int)> = None;
    if let Some((key, attr)) = &composite {
        keys.push(key.a.clone());
        keys.push(key.b.clone());
        proof {
            noted = Some((key@, *attr as int));
        }
    }
    assert(texts_view(keys@) =~= composite_keys(noted));
    let ghost views = fields_view(fields@);
    let mut layout = Layout { columns: Vec::new(), pk: None };
    assert(layout@.columns =~= Seq::empty());
    let mut i: usize = 0;
    while i < fields.len()
        invariant
            i <= fields@.len(),
            views == fields_view(fields@),
            layout_from(
                views,
                texts_view(keys@),
                0,
                LayoutView { columns: Seq::empty(), pk: None },
            ) == layout_from(views, texts_view(keys@), i as int, layout@),
            expanded(input@) == (match layout_from(
                views,
                texts_view(keys@),
                0,
                LayoutView { columns: Seq::empty(), pk: None },
            ) {
                Err(diagnostic) => Err::<PlanView, DiagnosticView>(diagnostic),
                Ok(layout) => resolve(table@, layout, noted),
            }),
        decreases fields@.len() - i,
    {
        assert(views[i as int] == fields@[i as int]@);
        let attrs = parse_field_attrs(&fields[i].attrs, i)?;
        add_field(&fields[i].ident, i, attrs, &keys, &mut layout)?;
        i += 1;
    }
    match (layout.pk, composite) {
        (Some(_), Some((key, attr))) => Err(
            Diagnostic {
                message:
                    "a struct cannot have both a #[crdt(pk)] field and a composite pk = (...)".to_owned(),
                place: Place::Argument { attr, token: key.at },
            },
        ),
        (Some(pk), None) => {
            let shape = PkSpec::single(pk.value.as_str());
            Ok(codegen(table, shape, Some(pk), layout.columns))
        },
        (None, Some((key, _))) => {
            let shape = PkSpec::composite(key.a.as_str(), key.b.as_str(), key.sep);
            Ok(codegen(table, shape, None, layout.columns))
        },
        (None, None) => Err(
            Diagnostic {
                message:
                    "a Crdt struct needs a primary key: mark a field with #[crdt(pk)] or declare a composite key with #[crdt(table = \"...\", pk = (a, b; sep = ':'))]".to_owned(),
                place: Place::Name,
            },
        ),
    }
}

} // verus!
