//! Rename templates such as `{date_taken:%Y}/{date_taken:%m}/{name}`.
use vstd::prelude::*;
use vstd::utf8::*;

use crate::metadata;
use crate::metadata::FileMeta;
use crate::text;
use crate::text::{
    byte_len, chars_of, decimal_of, find_char, parse_unsigned, push_text, str_eq, string_of, trim,
    trim_start_of,
};

verus! {

/// A piece of a template: text that is taken as it is, or a field `{name}` or
/// `{name:fmt}`.
#[derive(Debug, Clone)]
pub enum Token {
    Literal(String),
    Field { name: String, fmt: Option<String> },
}

/// A token as mathematical values.
#[verifier::ext_equal]
pub enum Piece {
    Literal(Seq<char>),
    Field { name: Seq<char>, fmt: Option<Seq<char>> },
}

impl View for Token {
    type V = Piece;

    open spec fn view(&self) -> Piece {
        match self {
            Token::Literal(s) => Piece::Literal(s@),
            Token::Field { name, fmt } => Piece::Field { name: name@, fmt: text::opt_view(*fmt) },
        }
    }
}

/// Tokens as mathematical values.
pub open spec fn pieces(tokens: Seq<Token>) -> Seq<Piece> {
    tokens.map_values(|t: Token| t@)
}

/// A parsed rename template.
#[derive(Debug, Clone)]
pub struct Template {
    tokens: Vec<Token>,
}

impl View for Template {
    type V = Seq<Piece>;

    closed spec fn view(&self) -> Seq<Piece> {
        pieces(self.tokens@)
    }
}

/// Why a template has no text for a file.
#[derive(Debug, Clone)]
pub enum RenderError {
    /// The field is not known, or has no value for this file.
    MissingField(String),
}

impl View for RenderError {
    type V = Seq<char>;

    /// The name of the missing field.
    open spec fn view(&self) -> Seq<char> {
        match self {
            RenderError::MissingField(name) => name@,
        }
    }
}

/// The message for a missing field.
pub open spec fn missing_message(name: Seq<char>) -> Seq<char> {
    "no value for {"@ + name + "}"@
}

impl RenderError {
    /// The error in words.
    pub fn message(&self) -> (r: String)
        ensures
            r@ == missing_message(self@),
    {
        match self {
            RenderError::MissingField(name) => {
                let mut out: String = String::new();
                push_text(&mut out, "no value for {");
                push_text(&mut out, name.as_str());
                push_text(&mut out, "}");
                assert(out@ =~= missing_message(name@));
                out
            },
        }
    }
}

/// The field that stands between two braces.
pub open spec fn field_of(inner: Seq<char>) -> Piece {
    let colon = text::first_index(inner, ':');
    if colon < inner.len() {
        Piece::Field {
            name: text::trimmed(inner.take(colon)),
            fmt: Some(inner.skip(colon + 1)),
        }
    } else {
        Piece::Field { name: text::trimmed(inner), fmt: None }
    }
}

/// Text as a literal piece, if there is any.
pub open spec fn literal(lit: Seq<char>) -> Seq<Piece> {
    if lit.len() == 0 {
        Seq::empty()
    } else {
        seq![Piece::Literal(lit)]
    }
}

/// The pieces of what is left of a template after the literal text `lit`. A
/// brace that is never closed is literal text, along with all that follows it.
pub open spec fn parsed_after(lit: Seq<char>, input: Seq<char>) -> Seq<Piece>
    decreases input.len(),
{
    if input.len() == 0 {
        literal(lit)
    } else if input[0] != '{' {
        parsed_after(lit.push(input[0]), input.drop_first())
    } else {
        let rest = input.drop_first();
        let close = text::first_index(rest, '}');
        if 0 <= close < rest.len() {
            literal(lit) + seq![field_of(rest.take(close))] + parsed_after(
                Seq::empty(),
                rest.skip(close + 1),
            )
        } else {
            literal(lit + input)
        }
    }
}

/// The pieces of a template.
pub open spec fn parsed(input: Seq<char>) -> Seq<Piece> {
    parsed_after(Seq::empty(), input)
}

/// A field value with the characters that are not allowed in a path component
/// replaced, so that a stray slash in a value makes no folder.
pub open spec fn sanitized(s: Seq<char>) -> Seq<char> {
    s.map_values(|c: char| if is_illegal(c) { '_' } else { c })
}

/// Whether a character may not be in a path component.
pub open spec fn is_illegal(c: char) -> bool {
    c == '/' || c == '\\' || c == ':' || c == '*' || c == '?' || c == '"' || c == '<' || c == '>'
        || c == '|'
}

/// The width that a counter is padded to: the number that its format states,
/// leading zeros aside, or else how long the format is, in bytes.
pub open spec fn counter_width(fmt: Option<Seq<char>>) -> nat {
    match fmt {
        Some(f) => match text::parsed(
            text::skip_while(f, text::same_as('0')),
            usize::MAX as nat,
        ) {
            Some(w) => w,
            None => encode_utf8(f).len(),
        },
        None => 0,
    }
}

/// A number padded with zeros to a width.
pub open spec fn padded(n: nat, width: nat) -> Seq<char> {
    let digits = text::decimal(n);
    if digits.len() >= width {
        digits
    } else {
        Seq::new((width - digits.len()) as nat, |i: int| '0') + digits
    }
}

/// The text of one piece for a file with the given place in the list, or nothing
/// if it is a field without a value.
pub open spec fn piece_text(p: Piece, m: metadata::Meta, index: nat) -> Option<Seq<char>> {
    match p {
        Piece::Literal(s) => Some(s),
        Piece::Field { name, fmt } => if name == "n"@ {
            Some(padded(index, counter_width(fmt)))
        } else {
            match metadata::field_value(m, name, fmt) {
                Some(v) => Some(sanitized(v)),
                None => None,
            }
        },
    }
}

/// The name of a piece that is a field.
pub open spec fn piece_name(p: Piece) -> Seq<char> {
    match p {
        Piece::Literal(s) => Seq::empty(),
        Piece::Field { name, fmt } => name,
    }
}

/// The text of a template for a file, or the name of the first field without a
/// value.
pub open spec fn rendered(t: Seq<Piece>, m: metadata::Meta, index: nat) -> Result<
    Seq<char>,
    Seq<char>,
>
    decreases t.len(),
{
    if t.len() == 0 {
        Ok(Seq::empty())
    } else {
        match rendered(t.drop_last(), m, index) {
            Ok(out) => match piece_text(t.last(), m, index) {
                Some(s) => Ok(out + s),
                None => Err(piece_name(t.last())),
            },
            Err(name) => Err(name),
        }
    }
}

/// Whether a piece's date format, if it has one, is valid.
pub open spec fn piece_formats(p: Piece, m: metadata::Meta) -> bool {
    match p {
        Piece::Literal(s) => true,
        Piece::Field { name, fmt } => name == "n"@ || metadata::field_formats(m, name, fmt),
    }
}

/// Whether rendering meets no invalid date format. What follows a field without
/// a value is not met.
pub open spec fn renderable(t: Seq<Piece>, m: metadata::Meta, index: nat) -> bool
    decreases t.len(),
{
    if t.len() == 0 {
        true
    } else {
        renderable(t.drop_last(), m, index) && (rendered(t.drop_last(), m, index) is Ok
            ==> piece_formats(t.last(), m))
    }
}

/// The names of a template's fields.
pub open spec fn field_names(t: Seq<Piece>) -> Seq<Seq<char>>
    decreases t.len(),
{
    if t.len() == 0 {
        Seq::empty()
    } else {
        match t.last() {
            Piece::Literal(s) => field_names(t.drop_last()),
            Piece::Field { name, fmt } => field_names(t.drop_last()).push(name),
        }
    }
}

proof fn lemma_renderable_prefix(t: Seq<Piece>, m: metadata::Meta, index: nat, k: int)
    requires
        0 <= k <= t.len(),
    ensures
        renderable(t, m, index) ==> renderable(t.take(k), m, index),
        rendered(t.take(k), m, index) is Err ==> rendered(t, m, index) == rendered(
            t.take(k),
            m,
            index,
        ) && renderable(t, m, index) == renderable(t.take(k), m, index),
    decreases t.len(),
{
    if k == t.len() {
        assert(t.take(k) =~= t);
    } else {
        lemma_renderable_prefix(t.drop_last(), m, index, k);
        assert(t.drop_last().take(k) =~= t.take(k));
    }
}

/// Replaces what is not allowed in a path component.
pub fn sanitize_component(s: &str) -> (r: String)
    ensures
        r@ == sanitized(s@),
{
    let v: Vec<char> = chars_of(s);
    let mut out: String = String::new();
    let mut i: usize = 0;
    while i < v.len()
        invariant
            v@ == s@,
            i <= v@.len(),
            out@ == sanitized(s@).take(i as int),
        decreases v@.len() - i,
    {
        let c: char = v[i];
        let illegal: bool = c == '/' || c == '\\' || c == ':' || c == '*' || c == '?' || c == '"'
            || c == '<' || c == '>' || c == '|';
        out.push(
            if illegal {
                '_'
            } else {
                c
            },
        );
        assert(sanitized(s@).take(i + 1) =~= sanitized(s@).take(i as int).push(
            sanitized(s@)[i as int],
        ));
        i += 1;
    }
    assert(sanitized(s@).take(i as int) =~= sanitized(s@));
    out
}

/// The width that a counter is padded to.
pub fn width_of(fmt: &Option<String>) -> (r: usize)
    ensures
        r == counter_width(text::opt_view(*fmt)),
{
    match fmt {
        Some(f) => {
            let stripped: String = trim_start_of(f.as_str(), '0');
            match parse_unsigned(stripped.as_str(), usize::MAX as u64) {
                Some(w) => w as usize,
                None => byte_len(f.as_str()),
            }
        },
        None => 0,
    }
}

/// Appends a number padded with zeros to a width.
pub fn push_padded(out: &mut String, n: u64, width: usize)
    ensures
        final(out)@ == old(out)@ + padded(n as nat, width as nat),
{
    let digits: Vec<char> = chars_of(decimal_of(n).as_str());
    let ghost base = out@;
    let ghost zeros = |k: int| Seq::new(k as nat, |i: int| '0');
    let mut have: usize = digits.len();
    assert(base + zeros(0) =~= base);
    while have < width
        invariant
            digits@ == text::decimal(n as nat),
            digits@.len() <= have,
            have <= width || have == digits@.len(),
            zeros == (|k: int| Seq::new(k as nat, |i: int| '0')),
            out@ == base + zeros(have - digits@.len()),
        decreases width - have,
    {
        out.push('0');
        have += 1;
        assert(out@ =~= base + zeros(have - digits@.len()));
    }
    push_text(out, string_of(digits.as_slice()).as_str());
    assert(out@ =~= base + padded(n as nat, width as nat));
}

impl Template {
    /// Parses a template. An unbalanced brace is literal text, so that there is
    /// no such thing as a template that cannot be parsed.
    pub fn parse(input: &str) -> (r: Template)
        ensures
            r@ == parsed(input@),
    {
        let v: Vec<char> = chars_of(input);
        let n: usize = v.len();
        let mut tokens: Vec<Token> = Vec::new();
        let mut lit: Vec<char> = Vec::new();
        let mut i: usize = 0;
        assert(input@.skip(0) =~= input@);
        assert(pieces(tokens@) + parsed(input@) =~= parsed(input@));
        while i < n
            invariant
                v@ == input@,
                n == v@.len(),
                i <= n,
                parsed(input@) == pieces(tokens@) + parsed_after(lit@, input@.skip(i as int)),
            decreases n - i,
        {
            let ghost here = input@.skip(i as int);
            let ghost done = tokens@;
            let c: char = v[i];
            assert(here[0] == c);
            assert(here.drop_first() =~= input@.skip(i + 1));
            if c != '{' {
                lit.push(c);
                i += 1;
                continue ;
            }
            let rest: &[char] = &v.as_slice()[i + 1..n];
            assert(rest@ =~= here.drop_first());
            match find_char(rest, '}') {
                Some(close) => {
                    let inner: &[char] = &rest[0..close];
                    assert(inner@ =~= rest@.take(close as int));
                    let ghost text_before = lit@;
                    if lit.len() > 0 {
                        tokens.push(Token::Literal(string_of(lit.as_slice())));
                        lit = Vec::new();
                    }
                    let ghost middle = tokens@;
                    assert(pieces(middle) =~= pieces(done) + literal(text_before));
                    let token: Token = Self::field_token(inner);
                    let ghost field = token@;
                    tokens.push(token);
                    assert(pieces(tokens@) =~= pieces(middle).push(field));
                    assert(rest@.skip(close + 1) =~= input@.skip(i + close + 2));
                    assert(pieces(tokens@) + parsed_after(Seq::empty(), rest@.skip(close + 1))
                        =~= pieces(done) + (literal(text_before) + seq![field] + parsed_after(
                        Seq::empty(),
                        rest@.skip(close + 1),
                    )));
                    assert(lit@ =~= Seq::<char>::empty());
                    i += close + 2;
                },
                None => {
                    let ghost text_before = lit@;
                    let ghost from = i as int;
                    while i < n
                        invariant
                            v@ == input@,
                            n == v@.len(),
                            0 <= from <= i <= n,
                            lit@ == text_before + input@.subrange(from, i as int),
                        decreases n - i,
                    {
                        lit.push(v[i]);
                        i += 1;
                        assert(lit@ =~= text_before + input@.subrange(from, i as int));
                    }
                    assert(input@.subrange(from, i as int) =~= here);
                    assert(parsed_after(lit@, input@.skip(i as int)) == literal(lit@));
                },
            }
        }
        let ghost done = tokens@;
        let ghost text_before = lit@;
        if lit.len() > 0 {
            tokens.push(Token::Literal(string_of(lit.as_slice())));
        }
        assert(pieces(tokens@) =~= pieces(done) + literal(text_before));
        Template { tokens }
    }

    fn field_token(inner: &[char]) -> (r: Token)
        ensures
            r@ == field_of(inner@),
    {
        let n: usize = inner.len();
        match find_char(inner, ':') {
            Some(colon) => {
                assert(inner@.subrange(0, colon as int) =~= inner@.take(colon as int));
                assert(inner@.subrange(colon + 1, n as int) =~= inner@.skip(colon + 1));
                let name: String = string_of(&inner[0..colon]);
                let fmt: String = string_of(&inner[colon + 1..n]);
                Token::Field { name: trim(name.as_str()), fmt: Some(fmt) }
            },
            None => Token::Field { name: trim(string_of(inner).as_str()), fmt: None },
        }
    }

    /// The names of the template's fields, in order.
    pub fn fields(&self) -> (r: Vec<String>)
        ensures
            r@.map_values(|s: String| s@) == field_names(self@),
    {
        let mut out: Vec<String> = Vec::new();
        let mut i: usize = 0;
        assert(self@.take(0) =~= Seq::<Piece>::empty());
        assert(out@.map_values(|s: String| s@) =~= field_names(self@.take(0)));
        while i < self.tokens.len()
            invariant
                i <= self.tokens@.len(),
                self@ == pieces(self.tokens@),
                out@.map_values(|s: String| s@) == field_names(self@.take(i as int)),
            decreases self.tokens@.len() - i,
        {
            let ghost before = out@;
            assert(self@.take(i + 1).drop_last() =~= self@.take(i as int));
            assert(self@.take(i + 1).last() == self.tokens@[i as int]@);
            if let Token::Field { name, fmt: _ } = &self.tokens[i] {
                out.push(name.clone());
                assert(out@.map_values(|s: String| s@) =~= before.map_values(|s: String| s@).push(
                    name@,
                ));
            }
            i += 1;
        }
        assert(self@.take(i as int) =~= self@);
        out
    }

    /// The relative path that the template gives a file: `index` feeds the `{n}`
    /// counter. The outer result is absent where rendering meets a date format
    /// that is not valid.
    pub fn try_render(&self, meta: &FileMeta, index: usize) -> (r: Option<
        Result<String, RenderError>,
    >)
        ensures
            r is Some <==> renderable(self@, meta@, index as nat),
            match r {
                Some(Ok(s)) => rendered(self@, meta@, index as nat) == Ok::<_, Seq<char>>(s@),
                Some(Err(e)) => rendered(self@, meta@, index as nat) == Err::<Seq<char>, _>(e@),
                None => true,
            },
    {
        let ghost t = self@;
        let ghost m = meta@;
        let ghost ix = index as nat;
        let mut out: String = String::new();
        let mut i: usize = 0;
        assert(t.take(0) =~= Seq::<Piece>::empty());
        assert(out@ =~= Seq::<char>::empty());
        while i < self.tokens.len()
            invariant
                i <= self.tokens@.len(),
                t == pieces(self.tokens@),
                t == self@,
                m == meta@,
                ix == index,
                rendered(t.take(i as int), m, ix) == Ok::<_, Seq<char>>(out@),
                renderable(t.take(i as int), m, ix),
            decreases self.tokens@.len() - i,
        {
            let ghost next = t.take(i + 1);
            let ghost before = out@;
            proof {
                assert(next.drop_last() =~= t.take(i as int));
                assert(next.last() == self.tokens@[i as int]@);
                lemma_renderable_prefix(t, m, ix, i + 1);
            }
            match &self.tokens[i] {
                Token::Literal(s) => push_text(&mut out, s.as_str()),
                Token::Field { name, fmt } => if str_eq(name.as_str(), "n") {
                    push_padded(&mut out, index as u64, width_of(fmt));
                } else {
                    let spec: Option<&str> = match fmt {
                        Some(f) => Some(f.as_str()),
                        None => None,
                    };
                    match meta.try_field(name.as_str(), spec) {
                        None => {
                            return None;
                        },
                        Some(None) => {
                            return Some(Err(RenderError::MissingField(name.clone())));
                        },
                        Some(Some(v)) => {
                            push_text(&mut out, sanitize_component(v.as_str()).as_str());
                        },
                    }
                },
            }
            i += 1;
        }
        assert(t.take(i as int) =~= t);
        Some(Ok(out))
    }

    /// The relative path that the template gives a file, for a template that
    /// meets no invalid date format there.
    pub fn render(&self, meta: &FileMeta, index: usize) -> (r: Result<String, RenderError>)
        requires
            renderable(self@, meta@, index as nat),
        ensures
            match r {
                Ok(s) => rendered(self@, meta@, index as nat) == Ok::<_, Seq<char>>(s@),
                Err(e) => rendered(self@, meta@, index as nat) == Err::<Seq<char>, _>(e@),
            },
    {
        self.try_render(meta, index).unwrap()
    }
}

/// A field value never makes a folder: no slash survives in it.
pub proof fn sanitized_values_hold_no_slash(s: Seq<char>)
    ensures
        sanitized(s).len() == s.len(),
        forall|i: int| 0 <= i < s.len() ==> !is_illegal(#[trigger] sanitized(s)[i]),
{
}

/// How many slashes a text holds.
pub open spec fn slashes(s: Seq<char>) -> nat {
    s.to_multiset().count('/')
}

/// How many slashes a template's own text holds.
pub open spec fn template_slashes(t: Seq<Piece>) -> nat
    decreases t.len(),
{
    if t.len() == 0 {
        0
    } else {
        template_slashes(t.drop_last()) + match t.last() {
            Piece::Literal(s) => slashes(s),
            Piece::Field { name, fmt } => 0,
        }
    }
}

/// Only the template's own slashes make folders: the path that it gives a file holds no
/// other.
pub proof fn only_template_slashes_make_folders(t: Seq<Piece>, m: metadata::Meta, index: nat)
    requires
        rendered(t, m, index) is Ok,
    ensures
        slashes(rendered(t, m, index)->Ok_0) == template_slashes(t),
    decreases t.len(),
{
    broadcast use vstd::multiset::group_multiset_axioms;

    if t.len() == 0 {
        assert(!Seq::<char>::empty().contains('/'));
        vstd::seq_lib::to_multiset_contains(Seq::<char>::empty(), '/');
    } else {
        only_template_slashes_make_folders(t.drop_last(), m, index);
        let before = rendered(t.drop_last(), m, index)->Ok_0;
        let added = piece_text(t.last(), m, index)->0;
        vstd::seq_lib::lemma_multiset_commutative(before, added);
        vstd::seq_lib::to_multiset_contains(added, '/');
        match t.last() {
            Piece::Literal(s) => {},
            Piece::Field { name, fmt } => {
                if name == "n"@ {
                    text::lemma_decimal(index);
                    assert forall|i: int| 0 <= i < added.len() implies added[i] != '/' by {
                        let digits = text::decimal(index);
                        let zeros = added.len() - digits.len();
                        if i >= zeros {
                            assert(added[i] == digits[i - zeros]);
                            assert(text::is_digit(digits[i - zeros]));
                        }
                    }
                } else {
                    let v = metadata::field_value(m, name, fmt)->0;
                    sanitized_values_hold_no_slash(v);
                    assert forall|i: int| 0 <= i < added.len() implies added[i] != '/' by {
                        assert(!is_illegal(sanitized(v)[i]));
                    }
                }
                assert(!added.contains('/'));
            },
        }
    }
}

/// Whether no brace of a text is opened and then closed.
pub open spec fn is_loose(input: Seq<char>) -> bool {
    forall|i: int, j: int|
        0 <= i < j < input.len() ==> !(#[trigger] input[i] == '{' && #[trigger] input[j] == '}')
}

/// Whether every brace that a text opens is closed in it.
pub open spec fn is_balanced(input: Seq<char>) -> bool
    decreases input.len(),
{
    if input.len() == 0 {
        true
    } else if input[0] != '{' {
        is_balanced(input.drop_first())
    } else {
        let rest = input.drop_first();
        let close = text::first_index(rest, '}');
        0 <= close < rest.len() && is_balanced(rest.skip(close + 1))
    }
}

/// A rendered template with literal text behind it.
pub open spec fn followed_by(r: Result<Seq<char>, Seq<char>>, tail: Seq<char>) -> Result<
    Seq<char>,
    Seq<char>,
> {
    match r {
        Ok(out) => Ok(out + tail),
        Err(name) => Err(name),
    }
}

/// A text in which no brace is opened and then closed is its own template: a brace
/// without its match is a literal.
pub proof fn unmatched_braces_are_literal(input: Seq<char>, m: metadata::Meta, index: nat)
    requires
        is_loose(input),
    ensures
        parsed(input) == literal(input),
        rendered(parsed(input), m, index) == Ok::<_, Seq<char>>(input),
{
    lemma_loose_text(Seq::empty(), input);
    assert(Seq::<char>::empty() + input =~= input);
    lemma_literal(input, m, index);
}

/// What two rendered templates make together: one after the other, up to the first field
/// without a value.
pub open spec fn in_a_row(
    a: Result<Seq<char>, Seq<char>>,
    b: Result<Seq<char>, Seq<char>>,
) -> Result<Seq<char>, Seq<char>> {
    match a {
        Ok(out) => match b {
            Ok(more) => Ok(out + more),
            Err(name) => Err(name),
        },
        Err(name) => Err(name),
    }
}

/// Templates can be put together: where the first closes every brace that it opens, both
/// together render as the one and then the other.
pub proof fn templates_can_be_put_together(
    head: Seq<char>,
    tail: Seq<char>,
    m: metadata::Meta,
    index: nat,
)
    requires
        is_balanced(head),
    ensures
        rendered(parsed(head + tail), m, index) == in_a_row(
            rendered(parsed(head), m, index),
            rendered(parsed(tail), m, index),
        ),
{
    lemma_put_together(Seq::empty(), head, tail, m, index);
}

/// What follows the last field of a template is its own text, unmatched braces and all.
pub proof fn unmatched_braces_after_fields_are_literal(
    head: Seq<char>,
    tail: Seq<char>,
    m: metadata::Meta,
    index: nat,
)
    requires
        is_balanced(head),
        is_loose(tail),
    ensures
        rendered(parsed(head + tail), m, index) == followed_by(
            rendered(parsed(head), m, index),
            tail,
        ),
{
    templates_can_be_put_together(head, tail, m, index);
    unmatched_braces_are_literal(tail, m, index);
}

proof fn lemma_literal(lit: Seq<char>, m: metadata::Meta, index: nat)
    ensures
        rendered(literal(lit), m, index) == Ok::<_, Seq<char>>(lit),
{
    reveal_with_fuel(rendered, 2);
    if lit.len() > 0 {
        assert(literal(lit).drop_last() =~= Seq::<Piece>::empty());
        assert(Seq::<char>::empty() + lit =~= lit);
    } else {
        assert(lit =~= Seq::<char>::empty());
    }
}

proof fn lemma_loose_text(lit: Seq<char>, input: Seq<char>)
    requires
        is_loose(input),
    ensures
        parsed_after(lit, input) == literal(lit + input),
    decreases input.len(),
{
    if input.len() == 0 {
        assert(lit + input =~= lit);
    } else {
        let rest = input.drop_first();
        assert forall|i: int| 0 <= i < rest.len() implies #[trigger] rest[i] == input[i + 1] by {}
        if input[0] == '{' {
            text::lemma_first_index_is(rest, '}');
            let close = text::first_index(rest, '}');
            if 0 <= close < rest.len() {
                assert(input[close + 1] == '}');
            }
        } else {
            assert(is_loose(rest)) by {
                assert forall|i: int, j: int| 0 <= i < j < rest.len() implies !(#[trigger] rest[i]
                    == '{' && #[trigger] rest[j] == '}') by {
                    assert(rest[i] == input[i + 1] && rest[j] == input[j + 1]);
                }
            }
            lemma_loose_text(lit.push(input[0]), rest);
            assert(lit.push(input[0]) + rest =~= lit + input);
        }
    }
}

/// The rendering of pieces in a row: one after the other, up to the first field without
/// a value.
proof fn lemma_rendered_row(a: Seq<Piece>, b: Seq<Piece>, m: metadata::Meta, index: nat)
    ensures
        rendered(a + b, m, index) == in_a_row(rendered(a, m, index), rendered(b, m, index)),
    decreases b.len(),
{
    if b.len() == 0 {
        assert(a + b =~= a);
        if let Ok(out) = rendered(a, m, index) {
            assert(out + Seq::<char>::empty() =~= out);
        }
    } else {
        assert((a + b).drop_last() =~= a + b.drop_last());
        lemma_rendered_row(a, b.drop_last(), m, index);
        if let Ok(out) = rendered(a, m, index) {
            if let Ok(more) = rendered(b.drop_last(), m, index) {
                if let Some(last) = piece_text(b.last(), m, index) {
                    assert(out + more + last =~= out + (more + last));
                }
            }
        }
    }
}

/// Literal text in front of a template is rendered in front of it.
proof fn lemma_literal_before(lit: Seq<char>, input: Seq<char>, m: metadata::Meta, index: nat)
    ensures
        rendered(parsed_after(lit, input), m, index) == in_a_row(
            Ok(lit),
            rendered(parsed(input), m, index),
        ),
    decreases input.len(),
{
    let none = Seq::<char>::empty();
    if input.len() == 0 {
        lemma_literal(lit, m, index);
        lemma_literal(none, m, index);
        assert(lit + none =~= lit);
    } else if input[0] != '{' {
        let rest = input.drop_first();
        lemma_literal_before(lit.push(input[0]), rest, m, index);
        lemma_literal_before(none.push(input[0]), rest, m, index);
        if let Ok(more) = rendered(parsed(rest), m, index) {
            assert(lit.push(input[0]) + more =~= lit + (none.push(input[0]) + more));
        }
    } else {
        let rest = input.drop_first();
        let close = text::first_index(rest, '}');
        if 0 <= close < rest.len() {
            let field = seq![field_of(rest.take(close))];
            let after = parsed_after(none, rest.skip(close + 1));
            lemma_literal(lit, m, index);
            lemma_rendered_row(literal(lit), field + after, m, index);
            assert(literal(lit) + field + after =~= literal(lit) + (field + after));
            assert(literal(none) + field + after =~= field + after);
        } else {
            lemma_literal(lit + input, m, index);
            lemma_literal(none + input, m, index);
            assert(none + input =~= input);
        }
    }
}

proof fn lemma_put_together(
    lit: Seq<char>,
    head: Seq<char>,
    tail: Seq<char>,
    m: metadata::Meta,
    index: nat,
)
    requires
        is_balanced(head),
    ensures
        rendered(parsed_after(lit, head + tail), m, index) == in_a_row(
            rendered(parsed_after(lit, head), m, index),
            rendered(parsed(tail), m, index),
        ),
    decreases head.len(),
{
    let all = head + tail;
    if head.len() == 0 {
        assert(all =~= tail);
        lemma_literal_before(lit, tail, m, index);
        lemma_literal(lit, m, index);
    } else {
        let rest = head.drop_first();
        assert(all.drop_first() =~= rest + tail);
        if head[0] != '{' {
            lemma_put_together(lit.push(head[0]), rest, tail, m, index);
        } else {
            let close = text::first_index(rest, '}');
            text::lemma_first_index_is(rest, '}');
            text::lemma_first_index_is(rest + tail, '}');
            let later = text::first_index(rest + tail, '}');
            assert((rest + tail)[close] == '}');
            assert(later == close) by {
                if later < close {
                    assert((rest + tail)[later] == rest[later]);
                }
            }
            let inner = rest.take(close);
            let after = rest.skip(close + 1);
            assert((rest + tail).take(close) =~= inner);
            assert((rest + tail).skip(close + 1) =~= after + tail);
            lemma_put_together(Seq::empty(), after, tail, m, index);
            let front = literal(lit) + seq![field_of(inner)];
            lemma_rendered_row(front, parsed_after(Seq::empty(), after), m, index);
            lemma_rendered_row(front, parsed_after(Seq::empty(), after + tail), m, index);
            if let Ok(out) = rendered(front, m, index) {
                if let Ok(more) = rendered(parsed_after(Seq::empty(), after), m, index) {
                    if let Ok(end) = rendered(parsed(tail), m, index) {
                        assert(out + (more + end) =~= out + more + end);
                    }
                }
            }
        }
    }
}

proof fn lemma_zeros_in_front(s: Seq<char>, k: nat)
    ensures
        (Seq::new(k, |i: int| '0') + s).fold_left(
            0,
            |v: int, c: char| 10 * v + (c as int - 48),
        ) == s.fold_left(0, |v: int, c: char| 10 * v + (c as int - 48)),
    decreases k + s.len(),
{
    let zeros = Seq::new(k, |i: int| '0');
    let all = zeros + s;
    if s.len() > 0 {
        lemma_zeros_in_front(s.drop_last(), k);
        assert(all.drop_last() =~= zeros + s.drop_last());
    } else if k > 0 {
        lemma_zeros_in_front(s, (k - 1) as nat);
        assert(all.drop_last() =~= Seq::new((k - 1) as nat, |i: int| '0') + s);
        assert(all.last() == '0');
    } else {
        assert(all =~= s);
    }
}

/// A padded number has the width asked for, or more where its own digits need more; it
/// consists of digits, and read from left to right they give the number.
pub proof fn padding_fills_up_to_the_width(n: nat, width: nat)
    ensures
        padded(n, width).len() == if text::decimal(n).len() >= width {
            text::decimal(n).len()
        } else {
            width
        },
        forall|i: int| 0 <= i < padded(n, width).len() ==> '0' <= #[trigger] padded(n, width)[i]
            <= '9',
        padded(n, width).fold_left(0, |v: int, c: char| 10 * v + (c as int - 48)) == n,
        padded(n, width).skip(padded(n, width).len() - text::decimal(n).len()) == text::decimal(n),
{
    text::decimals_are_read_back(n);
    let digits = text::decimal(n);
    if digits.len() < width {
        let k = (width - digits.len()) as nat;
        lemma_zeros_in_front(digits, k);
        assert(padded(n, width) =~= Seq::new(k, |i: int| '0') + digits);
        assert(padded(n, width).skip(k as int) =~= digits);
    } else {
        assert(digits.skip(0) =~= digits);
    }
}

/// The counter field stands for the number of the file, in as many digits as its format
/// says: a number of digits, or zeros and their number; and at least its own.
pub proof fn counters_have_the_width_asked_for(w: nat, index: nat, m: metadata::Meta, zeros: nat)
    requires
        w <= usize::MAX,
    ensures
        piece_text(Piece::Field { name: "n"@, fmt: None }, m, index) == Some(text::decimal(index)),
        w > 0 ==> piece_text(
            Piece::Field {
                name: "n"@,
                fmt: Some(Seq::new(zeros, |i: int| '0') + text::decimal(w)),
            },
            m,
            index,
        ) == Some(padded(index, w)),
        piece_text(
            Piece::Field { name: "n"@, fmt: Some(Seq::new(zeros, |i: int| '0')) },
            m,
            index,
        ) == Some(padded(index, zeros)),
{
    text::decimals_are_read_back(w);
    text::decimals_are_read_back(index);
    text::numbers_are_read_from_their_decimals(w, usize::MAX as nat, Seq::empty());
    let front = Seq::new(zeros, |i: int| '0');
    let f = front + text::decimal(w);
    assert(padded(index, 0) == text::decimal(index));
    if w > 0 {
        text::lemma_skip_while(f, text::same_as('0'), zeros as int);
        assert(f.skip(zeros as int) =~= text::decimal(w));
    }
    text::lemma_skip_while(front, text::same_as('0'), zeros as int);
    assert(front.skip(zeros as int) =~= Seq::empty());
    vstd::utf8::is_ascii_chars_encode_utf8(front);
}

/// In a value every character that a file name cannot hold becomes an underscore, and every
/// other one stays.
pub proof fn sanitizing_changes_nothing_else(s: Seq<char>, i: int)
    requires
        0 <= i < s.len(),
    ensures
        sanitized(s).len() == s.len(),
        sanitized(s)[i] == if seq!['/', '\\', ':', '*', '?', '"', '<', '>', '|'].contains(s[i]) {
            '_'
        } else {
            s[i]
        },
{
    let bad = seq!['/', '\\', ':', '*', '?', '"', '<', '>', '|'];
    if bad.contains(s[i]) {
        let k = choose|k: int| 0 <= k < bad.len() && bad[k] == s[i];
        assert(k == 0 || k == 1 || k == 2 || k == 3 || k == 4 || k == 5 || k == 6 || k == 7 || k
            == 8);
    }
    if is_illegal(s[i]) {
        assert(bad[0] == '/' && bad[1] == '\\' && bad[2] == ':' && bad[3] == '*' && bad[4] == '?'
            && bad[5] == '"' && bad[6] == '<' && bad[7] == '>' && bad[8] == '|');
        assert(bad.contains(s[i]));
    }
}

proof fn lemma_plain_text(lit: Seq<char>, input: Seq<char>)
    requires
        !input.contains('{'),
    ensures
        parsed_after(lit, input) == literal(lit + input),
    decreases input.len(),
{
    if input.len() == 0 {
        assert(lit + input =~= lit);
    } else {
        assert(input[0] != '{') by {
            assert(input.contains(input[0]));
        }
        let rest = input.drop_first();
        assert(!rest.contains('{')) by {
            if rest.contains('{') {
                let i = choose|i: int| 0 <= i < rest.len() && rest[i] == '{';
                assert(input[i + 1] == '{');
            }
        }
        lemma_plain_text(lit.push(input[0]), rest);
        assert(lit.push(input[0]) + rest =~= lit + input);
    }
}

/// A template without an opening brace is text that stands for itself.
pub proof fn plain_text_stands_for_itself(input: Seq<char>, m: metadata::Meta, index: nat)
    requires
        !input.contains('{'),
    ensures
        input.len() == 0 ==> parsed(input) == Seq::<Piece>::empty(),
        input.len() > 0 ==> parsed(input) == seq![Piece::Literal(input)],
        rendered(parsed(input), m, index) == Ok::<Seq<char>, Seq<char>>(input),
{
    lemma_plain_text(Seq::empty(), input);
    assert(Seq::<char>::empty() + input =~= input);
    lemma_literal(input, m, index);
}

/// What stands between braces is a field: its name, but for white space around it, is what
/// stands before the first colon, and its format all that stands behind it.
pub proof fn braces_hold_a_field(name: Seq<char>, fmt: Seq<char>)
    requires
        !name.contains('}') && !name.contains(':'),
        !fmt.contains('}'),
    ensures
        parsed(seq!['{'] + name + seq!['}']) == seq![
            Piece::Field { name: text::trimmed(name), fmt: None },
        ],
        parsed(seq!['{'] + name + seq![':'] + fmt + seq!['}']) == seq![
            Piece::Field { name: text::trimmed(name), fmt: Some(fmt) },
        ],
{
    lemma_one_field(name);
    assert forall|i: int| 0 <= i < name.len() implies name[i] != ':' by {
        assert(name.contains(name[i]));
    }
    text::lemma_first_index(name, ':', name.len() as int);
    let inner = name + seq![':'] + fmt;
    assert(!inner.contains('}')) by {
        if inner.contains('}') {
            let i = choose|i: int| 0 <= i < inner.len() && inner[i] == '}';
            if i < name.len() {
                assert(name[i] == '}');
            } else if i > name.len() {
                assert(fmt[i - name.len() - 1] == '}');
            }
        }
    }
    lemma_one_field(inner);
    text::lemma_first_index(inner, ':', name.len() as int);
    assert(inner.take(name.len() as int) =~= name);
    assert(inner.skip(name.len() as int + 1) =~= fmt);
    assert(seq!['{'] + inner + seq!['}'] =~= seq!['{'] + name + seq![':'] + fmt + seq!['}']);
}

proof fn lemma_one_field(inner: Seq<char>)
    requires
        !inner.contains('}'),
    ensures
        parsed(seq!['{'] + inner + seq!['}']) == seq![field_of(inner)],
{
    let none = Seq::<char>::empty();
    let input = seq!['{'] + inner + seq!['}'];
    let rest = input.drop_first();
    let n = inner.len() as int;
    assert(rest =~= inner.push('}'));
    assert forall|i: int| 0 <= i < n implies rest[i] != '}' by {
        assert(inner.contains(inner[i]));
    }
    text::lemma_first_index(rest, '}', n);
    assert(rest.take(n) =~= inner);
    assert(rest.skip(n + 1) =~= none);
    assert(parsed_after(none, none) == Seq::<Piece>::empty());
    assert(parsed(input) =~= seq![field_of(inner)]);
}

/// A field other than the counter stands for its value with what a file name cannot hold
/// replaced; without a value the template cannot be filled in, and the field is named.
pub proof fn fields_stand_for_their_values(
    name: Seq<char>,
    fmt: Option<Seq<char>>,
    m: metadata::Meta,
    index: nat,
)
    requires
        name != "n"@,
    ensures
        ({
            let r = rendered(seq![Piece::Field { name, fmt }], m, index);
            match metadata::field_value(m, name, fmt) {
                Some(v) => r == Ok::<Seq<char>, Seq<char>>(sanitized(v)),
                None => r == Err::<Seq<char>, Seq<char>>(name),
            }
        }),
        missing_message(name) == "no value for {"@ + name + "}"@,
{
    reveal_with_fuel(rendered, 2);
    let t = seq![Piece::Field { name, fmt }];
    assert(t.drop_last() =~= Seq::empty());
    match metadata::field_value(m, name, fmt) {
        Some(v) => {
            assert(Seq::<char>::empty() + sanitized(v) =~= sanitized(v));
        },
        None => {},
    }
}

/// A counter format that is no number is taken for its length in bytes.
pub proof fn other_counter_formats_go_by_length(f: Seq<char>, i: int)
    requires
        0 <= i < f.len(),
        !('0' <= f[i] <= '9'),
        f[i] != '+',
    ensures
        counter_width(Some(f)) == encode_utf8(f).len(),
        counter_width(None) == 0,
{
    let rest = text::skip_while(f, text::same_as('0'));
    let k = lemma_zeros_skipped(f, i);
    text::numbers_are_read_from_their_decimals(0, usize::MAX as nat, rest);
    if text::parsed(rest, usize::MAX as nat) is Some {
        assert(rest[i - k] == f[i]);
        assert('0' <= rest[i - k] <= '9' || (i - k == 0 && rest[i - k] == '+'));
    }
}

proof fn lemma_zeros_skipped(f: Seq<char>, i: int) -> (k: int)
    requires
        0 <= i < f.len(),
        f[i] != '0',
    ensures
        0 <= k <= i,
        text::skip_while(f, text::same_as('0')) == f.skip(k),
    decreases f.len(),
{
    if f[0] == '0' {
        let k = lemma_zeros_skipped(f.drop_first(), i - 1);
        assert(f.drop_first().skip(k) =~= f.skip(k + 1));
        k + 1
    } else {
        assert(f.skip(0) =~= f);
        0
    }
}

/// The fields of a template are those between its braces, in order.
pub proof fn field_names_are_listed_in_order(t: Seq<Piece>)
    ensures
        field_names(t) == t.filter(|p: Piece| p is Field).map_values(|p: Piece| p->Field_name),
    decreases t.len(),
{
    reveal(Seq::filter);
    let p = |p: Piece| p is Field;
    let f = |p: Piece| p->Field_name;
    if t.len() > 0 {
        field_names_are_listed_in_order(t.drop_last());
        let rest = t.drop_last().filter(p);
        if t.last() is Field {
            assert(t.filter(p) == rest.push(t.last()));
            assert(rest.push(t.last()).map_values(f) =~= rest.map_values(f).push(f(t.last())));
        }
    } else {
        assert(t.filter(p).map_values(f) =~= Seq::empty());
    }
}

/// A template can be filled in, or found to lack a value, unless it asks for a date that is
/// known in a format that cannot be written.
pub proof fn only_date_formats_can_fail(t: Seq<Piece>, m: metadata::Meta, index: nat)
    requires
        forall|i: int|
            0 <= i < t.len() ==> date_is_written((#[trigger] t[i]), m),
    ensures
        renderable(t, m, index),
    decreases t.len(),
{
    if t.len() > 0 {
        let rest = t.drop_last();
        assert forall|i: int| 0 <= i < rest.len() implies date_is_written(
            (#[trigger] rest[i]),
            m,
        ) by {
            assert(rest[i] == t[i]);
        }
        only_date_formats_can_fail(rest, m, index);
        assert(date_is_written(t[t.len() - 1], m));
    }
}

/// Whether a piece asks for no date that is known, or for one in a format that can be
/// written.
pub open spec fn date_is_written(p: Piece, m: metadata::Meta) -> bool {
    p matches Piece::Field { name, fmt } ==> {
        let date = if name == "date_taken"@ {
            m.date_taken
        } else if name == "date_created"@ {
            m.date_created
        } else if name == "date_modified"@ {
            m.date_modified
        } else if name == "date_accessed"@ {
            m.date_accessed
        } else {
            None
        };
        let f = if fmt is Some {
            fmt->0
        } else {
            "%Y-%m-%d"@
        };
        date matches Some(d) ==> metadata::strftime(d.secs, d.nanos, d.offset, f) is Some
    }
}

/// A template that can be filled in has every date it asks for written.
pub proof fn dates_asked_for_are_written(t: Seq<Piece>, m: metadata::Meta, index: nat, i: int)
    requires
        renderable(t, m, index),
        rendered(t, m, index) is Ok,
        0 <= i < t.len(),
        t[i] matches Piece::Field { name, fmt } ==> name != "n"@,
    ensures
        date_is_written(t[i], m),
    decreases t.len(),
{
    if i < t.len() - 1 {
        dates_asked_for_are_written(t.drop_last(), m, index, i);
    }
}

} // verus!
