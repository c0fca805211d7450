//! The definition-language parser: turns source text into an ordered
//! sequence of declarations (struct / enum / union / function), resolving
//! `include` directives by parsing the named file and splicing its
//! declarations in place, with errors attributed to the file they arose in.
//!
//! The grammar, over ASCII-style tokens separated by blanks:
//!
//! ```text
//! decl     := attrs? ("struct" | "enum" | "union") IDENT "{" ... "}"
//!           | "fn" IDENT "(" fields ")" ("->" type)?
//!           | "include" STRING
//! fields   := (field ("," field)* ","?)?
//! field    := attrs? IDENT ":" type
//! type     := ("[" type ":" INT "]" | "<" type ">" | IDENT) "*"*
//! attrs    := "@[" (attr ("," attr)*)? "]"
//! attr     := IDENT "=" STRING
//! ```
//!
//! The spec functions below are the grammar's definition: each executable
//! parser function is proved to return exactly what its spec counterpart
//! describes.

use vstd::prelude::*;

verus! {

// ---------------------------------------------------------------------------
// The abstract syntax
// ---------------------------------------------------------------------------

/// A parsed type expression, as written: a name, or an array, vector or
/// pointer of an inner type expression.
#[derive(Debug)]
pub enum Type {
    Named(String),
    Array(Box<Type>, usize),
    Vector(Box<Type>),
    Pointer(Box<Type>),
}

/// One wrapping step of a type expression, innermost first.
#[derive(Clone, Copy, PartialEq, Eq, Structural, Debug)]
pub enum Wrap {
    Arr(usize),
    Vect,
    Ptr,
}

/// Ghost image of a type expression: the base name plus the chain of
/// wrappers applied to it, innermost first.
#[verifier::ext_equal]
pub ghost struct TypeExprV {
    pub base: Seq<char>,
    pub wraps: Seq<Wrap>,
}

/// The ghost image of a type expression.
pub open spec fn type_view(t: Type) -> TypeExprV
    decreases t,
{
    match t {
        Type::Named(name) => TypeExprV { base: name@, wraps: Seq::empty() },
        Type::Array(inner, len) => {
            let iv = type_view(*inner);
            TypeExprV { base: iv.base, wraps: iv.wraps.push(Wrap::Arr(len)) }
        },
        Type::Vector(inner) => {
            let iv = type_view(*inner);
            TypeExprV { base: iv.base, wraps: iv.wraps.push(Wrap::Vect) }
        },
        Type::Pointer(inner) => {
            let iv = type_view(*inner);
            TypeExprV { base: iv.base, wraps: iv.wraps.push(Wrap::Ptr) }
        },
    }
}

impl View for Type {
    type V = TypeExprV;

    open spec fn view(&self) -> TypeExprV {
        type_view(*self)
    }
}

/// A parsed struct field: optional attributes, a name and a type expression.
#[derive(Debug)]
pub struct FieldTok {
    pub attributes: Vec<(String, String)>,
    pub name: String,
    pub ty: Type,
}

/// Ghost image of a parsed field.
#[verifier::ext_equal]
pub ghost struct FieldTokV {
    pub attributes: Seq<(Seq<char>, Seq<char>)>,
    pub name: Seq<char>,
    pub ty: TypeExprV,
}

impl View for FieldTok {
    type V = FieldTokV;

    open spec fn view(&self) -> FieldTokV {
        FieldTokV {
            attributes: crate::types::attributes_view(self.attributes@),
            name: self.name@,
            ty: self.ty@,
        }
    }
}

/// The ghost image of a parsed field sequence.
pub open spec fn field_toks_view(v: Seq<FieldTok>) -> Seq<FieldTokV> {
    v.map_values(|f: FieldTok| f@)
}

/// The ghost image of a function argument list.
pub open spec fn fn_args_view(v: Seq<(String, Type)>) -> Seq<(Seq<char>, TypeExprV)> {
    v.map_values(|a: (String, Type)| (a.0@, a.1@))
}

/// One parsed declaration. An `include` carries the resolved path of the
/// included file and that file's parsed declarations, spliced in place.
#[derive(Debug)]
pub enum Token {
    Struct(Vec<(String, String)>, String, Vec<FieldTok>),
    Enum(Vec<(String, String)>, String, Vec<String>),
    Union(Vec<(String, String)>, String, Vec<String>),
    Include(String, Vec<Token>),
    Function(String, Vec<(String, Type)>, Option<Type>),
}

/// Ghost image of a declaration.
pub ghost enum TokenV {
    Struct(Seq<(Seq<char>, Seq<char>)>, Seq<char>, Seq<FieldTokV>),
    Enum(Seq<(Seq<char>, Seq<char>)>, Seq<char>, Seq<Seq<char>>),
    Union(Seq<(Seq<char>, Seq<char>)>, Seq<char>, Seq<Seq<char>>),
    Include(Seq<char>, Seq<TokenV>),
    Function(Seq<char>, Seq<(Seq<char>, TypeExprV)>, Option<TypeExprV>),
}

/// The ghost image of one declaration.
pub open spec fn token_view(t: Token) -> TokenV
    decreases t,
{
    match t {
        Token::Struct(attrs, name, fields) => TokenV::Struct(
            crate::types::attributes_view(attrs@),
            name@,
            field_toks_view(fields@),
        ),
        Token::Enum(attrs, name, variants) => TokenV::Enum(
            crate::types::attributes_view(attrs@),
            name@,
            crate::types::names_view(variants@),
        ),
        Token::Union(attrs, name, variants) => TokenV::Union(
            crate::types::attributes_view(attrs@),
            name@,
            crate::types::names_view(variants@),
        ),
        Token::Include(path, tokens) => TokenV::Include(path@, tokens_view(tokens@)),
        Token::Function(name, args, ret) => TokenV::Function(
            name@,
            fn_args_view(args@),
            match ret {
                Some(t) => Some(t@),
                None => None,
            },
        ),
    }
}

/// The ghost image of a declaration sequence.
pub open spec fn tokens_view(ts: Seq<Token>) -> Seq<TokenV>
    decreases ts,
{
    if ts.len() == 0 {
        Seq::empty()
    } else {
        seq![token_view(ts[0])] + tokens_view(ts.drop_first())
    }
}

impl View for Token {
    type V = TokenV;

    open spec fn view(&self) -> TokenV {
        token_view(*self)
    }
}

/// The view of a declaration sequence is the sequence of views.
pub proof fn lemma_tokens_view_index(ts: Seq<Token>, k: int)
    ensures
        tokens_view(ts).len() == ts.len(),
        0 <= k < ts.len() ==> tokens_view(ts)[k] == token_view(ts[k]),
    decreases ts.len(),
{
    if ts.len() > 0 {
        lemma_tokens_view_index(ts.drop_first(), k - 1);
        if 0 <= k < ts.len() && k > 0 {
            assert(ts.drop_first()[k - 1] == ts[k]);
        }
    }
}

// ---------------------------------------------------------------------------
// Character classes
// ---------------------------------------------------------------------------

pub open spec fn is_ws_char(c: char) -> bool {
    c == ' ' || c == '\n' || c == '\t' || c == '\r'
}

pub open spec fn is_digit_char(c: char) -> bool {
    ('0' as u32) <= (c as u32) && (c as u32) <= ('9' as u32)
}

pub open spec fn is_ident_start_char(c: char) -> bool {
    (('a' as u32) <= (c as u32) && (c as u32) <= ('z' as u32))
        || (('A' as u32) <= (c as u32) && (c as u32) <= ('Z' as u32))
        || c == '_'
}

pub open spec fn is_ident_char(c: char) -> bool {
    is_ident_start_char(c) || is_digit_char(c)
}

pub open spec fn is_quote_char(c: char) -> bool {
    c == '"' || c == '\''
}

pub open spec fn digit_value(c: char) -> int {
    (c as u32) - ('0' as u32)
}

// ---------------------------------------------------------------------------
// The spec-level parser: lexical pieces
// ---------------------------------------------------------------------------

/// The first position at or after `i` holding a non-blank character.
pub open spec fn skip_ws(s: Seq<char>, i: int) -> int
    decreases s.len() - i,
{
    if 0 <= i < s.len() && is_ws_char(s[i]) {
        skip_ws(s, i + 1)
    } else {
        i
    }
}

pub proof fn lemma_skip_ws(s: Seq<char>, i: int)
    requires
        0 <= i <= s.len(),
    ensures
        i <= skip_ws(s, i) <= s.len(),
    decreases s.len() - i,
{
    if i < s.len() && is_ws_char(s[i]) {
        lemma_skip_ws(s, i + 1);
    }
}

/// The first position at or after `i` holding a non-identifier character.
pub open spec fn ident_end(s: Seq<char>, i: int) -> int
    decreases s.len() - i,
{
    if 0 <= i < s.len() && is_ident_char(s[i]) {
        ident_end(s, i + 1)
    } else {
        i
    }
}

pub proof fn lemma_ident_end(s: Seq<char>, i: int)
    requires
        0 <= i <= s.len(),
    ensures
        i <= ident_end(s, i) <= s.len(),
    decreases s.len() - i,
{
    if i < s.len() && is_ident_char(s[i]) {
        lemma_ident_end(s, i + 1);
    }
}

/// An identifier starting exactly at `i`: a letter or underscore followed by
/// letters, digits and underscores.
pub open spec fn parse_ident(s: Seq<char>, i: int) -> Option<(Seq<char>, int)> {
    if 0 <= i < s.len() && is_ident_start_char(s[i]) {
        Some((s.subrange(i, ident_end(s, i)), ident_end(s, i)))
    } else {
        None
    }
}

/// The first position at or after `i` holding a non-digit character.
pub open spec fn digits_end(s: Seq<char>, i: int) -> int
    decreases s.len() - i,
{
    if 0 <= i < s.len() && is_digit_char(s[i]) {
        digits_end(s, i + 1)
    } else {
        i
    }
}

pub proof fn lemma_digits_end(s: Seq<char>, i: int)
    requires
        0 <= i <= s.len(),
    ensures
        i <= digits_end(s, i) <= s.len(),
    decreases s.len() - i,
{
    if i < s.len() && is_digit_char(s[i]) {
        lemma_digits_end(s, i + 1);
    }
}

/// The value of the decimal digit run `s[i..j]`.
pub open spec fn decimal_value(s: Seq<char>, i: int, j: int) -> int
    decreases j - i,
{
    if i >= j {
        0
    } else {
        decimal_value(s, i, j - 1) * 10 + digit_value(s[j - 1])
    }
}

/// A non-negative integer literal starting exactly at `i`, rejected when it
/// does not fit the machine.
pub open spec fn parse_number(s: Seq<char>, i: int) -> Option<(usize, int)> {
    if 0 <= i < s.len() && is_digit_char(s[i]) {
        let j = digits_end(s, i);
        let v = decimal_value(s, i, j);
        if v <= usize::MAX {
            Some((v as usize, j))
        } else {
            None
        }
    } else {
        None
    }
}

/// The first position at or after `i` holding a quote, of either sort.
pub open spec fn string_end(s: Seq<char>, i: int) -> int
    decreases s.len() - i,
{
    if 0 <= i < s.len() && !is_quote_char(s[i]) {
        string_end(s, i + 1)
    } else {
        i
    }
}

pub proof fn lemma_string_end(s: Seq<char>, i: int)
    requires
        0 <= i <= s.len(),
    ensures
        i <= string_end(s, i) <= s.len(),
    decreases s.len() - i,
{
    if i < s.len() && !is_quote_char(s[i]) {
        lemma_string_end(s, i + 1);
    }
}

/// A quoted string starting exactly at `i`: an opening quote of either sort,
/// quote-free content, and a closing quote of either sort.
pub open spec fn parse_string_lit(s: Seq<char>, i: int) -> Option<(Seq<char>, int)> {
    if 0 <= i < s.len() && is_quote_char(s[i]) {
        let j = string_end(s, i + 1);
        if j < s.len() {
            Some((s.subrange(i + 1, j), j + 1))
        } else {
            None
        }
    } else {
        None
    }
}

// ---------------------------------------------------------------------------
// The spec-level parser: attributes and types
// ---------------------------------------------------------------------------

/// One `key="value"` pair, blanks allowed before it.
pub open spec fn parse_attr(s: Seq<char>, i: int) -> Option<((Seq<char>, Seq<char>), int)> {
    let j = skip_ws(s, i);
    match parse_ident(s, j) {
        None => None,
        Some((key, j2)) => {
            if 0 <= j2 < s.len() && s[j2] == '=' {
                match parse_string_lit(s, j2 + 1) {
                    None => None,
                    Some((value, j3)) => Some(((key, value), j3)),
                }
            } else {
                None
            }
        },
    }
}

/// A non-empty comma-separated attribute list followed by `]`.
pub open spec fn parse_attr_list(s: Seq<char>, i: int) -> Option<(Seq<(Seq<char>, Seq<char>)>, int)>
    decreases s.len() - i,
{
    match parse_attr(s, i) {
        None => None,
        Some((attr, j)) => {
            let k = skip_ws(s, j);
            if 0 <= k < s.len() && s[k] == ']' {
                Some((seq![attr], k + 1))
            } else if 0 <= k < s.len() && s[k] == ',' {
                if k + 1 <= i {
                    None
                } else {
                    match parse_attr_list(s, k + 1) {
                        None => None,
                        Some((rest, j2)) => Some((seq![attr] + rest, j2)),
                    }
                }
            } else {
                None
            }
        },
    }
}

/// An optional `@[ ... ]` attribute block, blanks allowed before it; when no
/// block is present nothing is consumed.
pub open spec fn parse_attrs_opt(s: Seq<char>, i: int) -> Option<(Seq<(Seq<char>, Seq<char>)>, int)> {
    let j = skip_ws(s, i);
    if 0 <= j && j + 1 < s.len() && s[j] == '@' && s[j + 1] == '[' {
        let k = skip_ws(s, j + 2);
        if 0 <= k < s.len() && s[k] == ']' {
            Some((Seq::empty(), k + 1))
        } else {
            parse_attr_list(s, j + 2)
        }
    } else {
        Some((Seq::empty(), i))
    }
}

/// A run of `*` wrappers, blanks allowed before each; returns how many stars
/// were consumed and the position after the last one.
pub open spec fn parse_stars(s: Seq<char>, i: int) -> (nat, int)
    decreases s.len() - i,
{
    let j = skip_ws(s, i);
    if j < i {
        (0, i)
    } else if 0 <= j < s.len() && s[j] == '*' {
        let (n, k) = parse_stars(s, j + 1);
        (n + 1, k)
    } else {
        (0, i)
    }
}

/// `n` pointer wrappers.
pub open spec fn ptr_wraps(n: nat) -> Seq<Wrap> {
    Seq::new(n, |k: int| Wrap::Ptr)
}

/// A type expression, blanks allowed before it: `[T:N]`, `<T>` or a name,
/// followed by any number of trailing `*`.
pub open spec fn parse_type(s: Seq<char>, i: int) -> Option<(TypeExprV, int)>
    decreases s.len() - i,
{
    let j = skip_ws(s, i);
    if j < i || j >= s.len() {
        None
    } else if s[j] == '[' {
        match parse_type(s, j + 1) {
            None => None,
            Some((inner, j2)) => {
                let j3 = skip_ws(s, j2);
                if 0 <= j3 < s.len() && s[j3] == ':' {
                    let j4 = skip_ws(s, j3 + 1);
                    match parse_number(s, j4) {
                        None => None,
                        Some((len, j5)) => {
                            let j6 = skip_ws(s, j5);
                            if 0 <= j6 < s.len() && s[j6] == ']' {
                                let (n, j7) = parse_stars(s, j6 + 1);
                                Some((
                                    TypeExprV {
                                        base: inner.base,
                                        wraps: inner.wraps.push(Wrap::Arr(len)) + ptr_wraps(n),
                                    },
                                    j7,
                                ))
                            } else {
                                None
                            }
                        },
                    }
                } else {
                    None
                }
            },
        }
    } else if s[j] == '<' {
        match parse_type(s, j + 1) {
            None => None,
            Some((inner, j2)) => {
                let j3 = skip_ws(s, j2);
                if 0 <= j3 < s.len() && s[j3] == '>' {
                    let (n, j4) = parse_stars(s, j3 + 1);
                    Some((
                        TypeExprV {
                            base: inner.base,
                            wraps: inner.wraps.push(Wrap::Vect) + ptr_wraps(n),
                        },
                        j4,
                    ))
                } else {
                    None
                }
            },
        }
    } else {
        match parse_ident(s, j) {
            None => None,
            Some((name, j2)) => {
                let (n, j3) = parse_stars(s, j2);
                Some((TypeExprV { base: name, wraps: ptr_wraps(n) }, j3))
            },
        }
    }
}

// ---------------------------------------------------------------------------
// The spec-level parser: fields, variants, declarations
// ---------------------------------------------------------------------------

/// One field: optional attributes, a name, `:`, a type.
pub open spec fn parse_field(s: Seq<char>, i: int) -> Option<(FieldTokV, int)> {
    match parse_attrs_opt(s, i) {
        None => None,
        Some((attrs, j)) => {
            let j2 = skip_ws(s, j);
            match parse_ident(s, j2) {
                None => None,
                Some((name, j3)) => {
                    let j4 = skip_ws(s, j3);
                    if 0 <= j4 < s.len() && s[j4] == ':' {
                        match parse_type(s, j4 + 1) {
                            None => None,
                            Some((ty, j5)) => Some((FieldTokV { attributes: attrs, name, ty }, j5)),
                        }
                    } else {
                        None
                    }
                },
            }
        },
    }
}

/// A non-empty field list: fields separated by commas, a trailing comma
/// allowed, closed by `close`.
pub open spec fn parse_fields_nonempty(s: Seq<char>, i: int, close: char) -> Option<(Seq<FieldTokV>, int)>
    decreases s.len() - i,
{
    match parse_field(s, i) {
        None => None,
        Some((f, j)) => {
            let k = skip_ws(s, j);
            if 0 <= k < s.len() && s[k] == close {
                Some((seq![f], k + 1))
            } else if 0 <= k < s.len() && s[k] == ',' {
                let m = skip_ws(s, k + 1);
                if 0 <= m < s.len() && s[m] == close {
                    Some((seq![f], m + 1))
                } else if k + 1 <= i {
                    None
                } else {
                    match parse_fields_nonempty(s, k + 1, close) {
                        None => None,
                        Some((rest, j2)) => Some((seq![f] + rest, j2)),
                    }
                }
            } else {
                None
            }
        },
    }
}

/// A possibly-empty field list closed by `close`; `i` is just after the
/// opening delimiter.
pub open spec fn parse_fields(s: Seq<char>, i: int, close: char) -> Option<(Seq<FieldTokV>, int)> {
    let j = skip_ws(s, i);
    if 0 <= j < s.len() && s[j] == close {
        Some((Seq::empty(), j + 1))
    } else {
        parse_fields_nonempty(s, i, close)
    }
}

/// A non-empty variant-name list: names separated by commas, a trailing
/// comma allowed, closed by `}`.
pub open spec fn parse_variants_nonempty(s: Seq<char>, i: int) -> Option<(Seq<Seq<char>>, int)>
    decreases s.len() - i,
{
    let j0 = skip_ws(s, i);
    match parse_ident(s, j0) {
        None => None,
        Some((name, j)) => {
            let k = skip_ws(s, j);
            if 0 <= k < s.len() && s[k] == '}' {
                Some((seq![name], k + 1))
            } else if 0 <= k < s.len() && s[k] == ',' {
                let m = skip_ws(s, k + 1);
                if 0 <= m < s.len() && s[m] == '}' {
                    Some((seq![name], m + 1))
                } else if k + 1 <= i {
                    None
                } else {
                    match parse_variants_nonempty(s, k + 1) {
                        None => None,
                        Some((rest, j2)) => Some((seq![name] + rest, j2)),
                    }
                }
            } else {
                None
            }
        },
    }
}

/// A possibly-empty variant-name list closed by `}`; `i` is just after `{`.
pub open spec fn parse_variants(s: Seq<char>, i: int) -> Option<(Seq<Seq<char>>, int)> {
    let j = skip_ws(s, i);
    if 0 <= j < s.len() && s[j] == '}' {
        Some((Seq::empty(), j + 1))
    } else {
        parse_variants_nonempty(s, i)
    }
}

// ---------------------------------------------------------------------------
// Paths and the file set
// ---------------------------------------------------------------------------

/// The position one past the last `/` in `p`, or zero when `p` has none.
pub open spec fn dir_end(p: Seq<char>, i: int) -> int
    decreases i,
{
    if i <= 0 {
        0
    } else if p[i - 1] == '/' {
        i
    } else {
        dir_end(p, i - 1)
    }
}

/// The directory part of a path, trailing `/` kept: everything up to and
/// including the last `/`, or nothing when there is none.
pub open spec fn dirname(p: Seq<char>) -> Seq<char> {
    p.subrange(0, dir_end(p, p.len() as int))
}

pub proof fn lemma_dir_end(p: Seq<char>, i: int)
    requires
        0 <= i <= p.len(),
    ensures
        0 <= dir_end(p, i) <= i,
    decreases i,
{
    if i > 0 && p[i - 1] != '/' {
        lemma_dir_end(p, i - 1);
    }
}

/// An include path relative to the including file's directory; an absolute
/// path stands as written.
pub open spec fn join_path(includer: Seq<char>, rel: Seq<char>) -> Seq<char> {
    if rel.len() > 0 && rel[0] == '/' {
        rel
    } else {
        dirname(includer) + rel
    }
}

/// The position of the first file whose path is `path`, if any.
pub open spec fn file_lookup(files: Seq<(Seq<char>, Seq<char>)>, path: Seq<char>) -> Option<int>
    decreases files.len(),
{
    if files.len() == 0 {
        None
    } else if files[0].0 == path {
        Some(0int)
    } else {
        match file_lookup(files.drop_first(), path) {
            Some(k) => Some(k + 1),
            None => None,
        }
    }
}

pub proof fn lemma_file_lookup(files: Seq<(Seq<char>, Seq<char>)>, path: Seq<char>)
    ensures
        match file_lookup(files, path) {
            Some(k) => 0 <= k < files.len() && files[k].0 == path
                && forall|j: int| 0 <= j < k ==> (#[trigger] files[j]).0 != path,
            None => forall|j: int| 0 <= j < files.len() ==> (#[trigger] files[j]).0 != path,
        },
    decreases files.len(),
{
    if files.len() != 0 && files[0].0 != path {
        let rest = files.drop_first();
        lemma_file_lookup(rest, path);
        assert(forall|j: int| 0 <= j < rest.len() ==> #[trigger] rest[j] == files[j + 1]);
        match file_lookup(rest, path) {
            Some(k) => {
                assert(files[k + 1].0 == path);
                assert forall|j: int| 0 <= j < k + 1 implies (#[trigger] files[j]).0 != path by {
                    if j > 0 {
                        assert(rest[j - 1] == files[j]);
                    }
                }
            },
            None => {
                assert forall|j: int| 0 <= j < files.len() implies (#[trigger] files[j]).0 != path by {
                    if j > 0 {
                        assert(rest[j - 1] == files[j]);
                    }
                }
            },
        }
    }
}

/// A first match at `k` pins the lookup down.
pub proof fn lemma_file_lookup_found(files: Seq<(Seq<char>, Seq<char>)>, path: Seq<char>, k: int)
    requires
        0 <= k < files.len(),
        files[k].0 == path,
        forall|j: int| 0 <= j < k ==> (#[trigger] files[j]).0 != path,
    ensures
        file_lookup(files, path) == Some(k),
    decreases files.len(),
{
    if k == 0 {
    } else {
        assert(files[0].0 != path);
        let rest = files.drop_first();
        assert(forall|j: int| 0 <= j < rest.len() ==> #[trigger] rest[j] == files[j + 1]);
        assert forall|j: int| 0 <= j < k - 1 implies (#[trigger] rest[j]).0 != path by {
            assert(rest[j] == files[j + 1]);
        }
        assert(rest[k - 1] == files[k]);
        lemma_file_lookup_found(rest, path, k - 1);
    }
}

/// No match at all pins the lookup down too.
pub proof fn lemma_file_lookup_absent(files: Seq<(Seq<char>, Seq<char>)>, path: Seq<char>)
    requires
        forall|j: int| 0 <= j < files.len() ==> (#[trigger] files[j]).0 != path,
    ensures
        file_lookup(files, path) is None,
    decreases files.len(),
{
    if files.len() != 0 {
        let rest = files.drop_first();
        assert forall|j: int| 0 <= j < rest.len() implies (#[trigger] rest[j]).0 != path by {
            assert(rest[j] == files[j + 1]);
        }
        lemma_file_lookup_absent(rest, path);
    }
}

/// Is `path` among the paths in `stack`?
pub open spec fn stack_contains(stack: Seq<Seq<char>>, path: Seq<char>) -> bool {
    exists|j: int| 0 <= j < stack.len() && stack[j] == path
}

// ---------------------------------------------------------------------------
// The spec-level parser: declarations and files
// ---------------------------------------------------------------------------

/// One declaration, starting with blanks allowed. `path` is the file being
/// parsed (used to resolve includes); `stack` holds the paths of the files
/// currently being parsed, outermost first.
pub open spec fn parse_decl(
    files: Seq<(Seq<char>, Seq<char>)>,
    stack: Seq<Seq<char>>,
    path: Seq<char>,
    s: Seq<char>,
    i: int,
) -> Option<(TokenV, int)>
    decreases files.len() + 1 - stack.len(), s.len() - i, 1int,
{
    if i < 0 || i > s.len() || stack.len() > files.len() + 1 {
        None
    } else {
        match parse_attrs_opt(s, i) {
            None => None,
            Some((attrs, j0)) => {
                let j = skip_ws(s, j0);
                match parse_ident(s, j) {
                    None => None,
                    Some((word, j2)) => {
                        if word == "struct"@ {
                            let j3 = skip_ws(s, j2);
                            match parse_ident(s, j3) {
                                None => None,
                                Some((name, j4)) => {
                                    let j5 = skip_ws(s, j4);
                                    if 0 <= j5 < s.len() && s[j5] == '{' {
                                        match parse_fields(s, j5 + 1, '}') {
                                            None => None,
                                            Some((fields, j6)) => Some((
                                                TokenV::Struct(attrs, name, fields),
                                                j6,
                                            )),
                                        }
                                    } else {
                                        None
                                    }
                                },
                            }
                        } else if word == "enum"@ || word == "union"@ {
                            let j3 = skip_ws(s, j2);
                            match parse_ident(s, j3) {
                                None => None,
                                Some((name, j4)) => {
                                    let j5 = skip_ws(s, j4);
                                    if 0 <= j5 < s.len() && s[j5] == '{' {
                                        match parse_variants(s, j5 + 1) {
                                            None => None,
                                            Some((variants, j6)) => Some((
                                                if word == "enum"@ {
                                                    TokenV::Enum(attrs, name, variants)
                                                } else {
                                                    TokenV::Union(attrs, name, variants)
                                                },
                                                j6,
                                            )),
                                        }
                                    } else {
                                        None
                                    }
                                },
                            }
                        } else if word == "fn"@ {
                            if attrs.len() != 0 {
                                None
                            } else {
                                let j3 = skip_ws(s, j2);
                                match parse_ident(s, j3) {
                                    None => None,
                                    Some((name, j4)) => {
                                        let j5 = skip_ws(s, j4);
                                        if 0 <= j5 < s.len() && s[j5] == '(' {
                                            match parse_fields(s, j5 + 1, ')') {
                                                None => None,
                                                Some((params, j6)) => {
                                                    let args = params.map_values(
                                                        |f: FieldTokV| (f.name, f.ty),
                                                    );
                                                    let j7 = skip_ws(s, j6);
                                                    if 0 <= j7 && j7 + 1 < s.len() && s[j7] == '-'
                                                        && s[j7 + 1] == '>' {
                                                        match parse_type(s, j7 + 2) {
                                                            None => None,
                                                            Some((ret, j8)) => Some((
                                                                TokenV::Function(name, args, Some(ret)),
                                                                j8,
                                                            )),
                                                        }
                                                    } else {
                                                        Some((TokenV::Function(name, args, None), j6))
                                                    }
                                                },
                                            }
                                        } else {
                                            None
                                        }
                                    },
                                }
                            }
                        } else if word == "include"@ {
                            if attrs.len() != 0 {
                                None
                            } else {
                                let j3 = skip_ws(s, j2);
                                match parse_string_lit(s, j3) {
                                    None => None,
                                    Some((rel, j4)) => {
                                        let full = join_path(path, rel);
                                        match parse_file(files, full, stack) {
                                            None => None,
                                            Some(sub) => Some((TokenV::Include(full, sub), j4)),
                                        }
                                    },
                                }
                            }
                        } else {
                            None
                        }
                    },
                }
            },
        }
    }
}

/// All declarations of `s` from `i` to the end of the text.
pub open spec fn parse_decls(
    files: Seq<(Seq<char>, Seq<char>)>,
    stack: Seq<Seq<char>>,
    path: Seq<char>,
    s: Seq<char>,
    i: int,
) -> Option<Seq<TokenV>>
    decreases files.len() + 1 - stack.len(), s.len() - i, 2int,
{
    if i < 0 || i > s.len() || stack.len() > files.len() + 1 {
        None
    } else {
        let j = skip_ws(s, i);
        if j >= s.len() {
            Some(Seq::empty())
        } else if j < i {
            None
        } else {
            match parse_decl(files, stack, path, s, j) {
                None => None,
                Some((tok, j2)) => {
                    if j2 <= i || j2 > s.len() {
                        None
                    } else {
                        match parse_decls(files, stack, path, s, j2) {
                            None => None,
                            Some(rest) => Some(seq![tok] + rest),
                        }
                    }
                },
            }
        }
    }
}

/// One whole file: looked up in the file set, refused when it is already
/// being parsed (a cyclic include) or absent, and parsed from the top.
pub open spec fn parse_file(
    files: Seq<(Seq<char>, Seq<char>)>,
    path: Seq<char>,
    stack: Seq<Seq<char>>,
) -> Option<Seq<TokenV>>
    decreases files.len() + 1 - stack.len(), 0int, 0int,
{
    if stack.len() > files.len() || stack_contains(stack, path) {
        None
    } else {
        match file_lookup(files, path) {
            None => None,
            Some(k) => parse_decls(files, stack.push(path), path, files[k].1, 0),
        }
    }
}

/// A whole parse: the root text, with includes drawn from `files`; the
/// root's own path seeds the cycle check.
pub open spec fn parse_root(
    files: Seq<(Seq<char>, Seq<char>)>,
    root_path: Seq<char>,
    text: Seq<char>,
) -> Option<Seq<TokenV>> {
    parse_decls(files, seq![root_path], root_path, text, 0)
}

// ---------------------------------------------------------------------------
// The executable parser: lexical pieces
// ---------------------------------------------------------------------------

/// A positioned parse failure: the file it arose in, the character offset,
/// and a short description.
#[derive(Debug)]
pub struct ParseError {
    pub file: String,
    pub offset: usize,
    pub message: String,
}

/// Ghost image of a parse failure.
#[verifier::ext_equal]
pub ghost struct ParseErrorV {
    pub file: Seq<char>,
    pub offset: usize,
    pub message: Seq<char>,
}

impl View for ParseError {
    type V = ParseErrorV;

    open spec fn view(&self) -> ParseErrorV {
        ParseErrorV { file: self.file@, offset: self.offset, message: self.message@ }
    }
}

impl ParseError {
    fn new(file: &str, offset: usize, message: &str) -> (r: Self)
        ensures
            r@ == (ParseErrorV { file: file@, offset, message: message@ }),
    {
        ParseError { file: file.to_owned(), offset, message: message.to_owned() }
    }
}

fn e_is_ws(c: char) -> (r: bool)
    ensures
        r == is_ws_char(c),
{
    c == ' ' || c == '\n' || c == '\t' || c == '\r'
}

fn e_is_digit(c: char) -> (r: bool)
    ensures
        r == is_digit_char(c),
{
    let u = c as u32;
    ('0' as u32) <= u && u <= ('9' as u32)
}

fn e_is_ident_start(c: char) -> (r: bool)
    ensures
        r == is_ident_start_char(c),
{
    let u = c as u32;
    (('a' as u32) <= u && u <= ('z' as u32)) || (('A' as u32) <= u && u <= ('Z' as u32))
        || c == '_'
}

fn e_is_ident_char(c: char) -> (r: bool)
    ensures
        r == is_ident_char(c),
{
    e_is_ident_start(c) || e_is_digit(c)
}

fn e_is_quote(c: char) -> (r: bool)
    ensures
        r == is_quote_char(c),
{
    c == '"' || c == '\''
}

pub(crate) fn e_skip_ws(s: &str, i: usize, n: usize) -> (r: usize)
    requires
        i <= s@.len(),
        n == s@.len(),
    ensures
        r == skip_ws(s@, i as int),
        i <= r <= s@.len(),
{
    let mut r = i;
    while r < n && e_is_ws(s.get_char(r))
        invariant
            i <= r <= n,
            n == s@.len(),
            skip_ws(s@, i as int) == skip_ws(s@, r as int),
        decreases n - r,
    {
        r = r + 1;
    }
    r
}

fn e_ident_end(s: &str, i: usize, n: usize) -> (r: usize)
    requires
        i <= s@.len(),
        n == s@.len(),
    ensures
        r == ident_end(s@, i as int),
        i <= r <= s@.len(),
{
    let mut r = i;
    while r < n && e_is_ident_char(s.get_char(r))
        invariant
            i <= r <= n,
            n == s@.len(),
            ident_end(s@, i as int) == ident_end(s@, r as int),
        decreases n - r,
    {
        r = r + 1;
    }
    r
}

fn e_parse_ident(s: &str, i: usize, n: usize) -> (r: Option<(String, usize)>)
    requires
        i <= s@.len(),
        n == s@.len(),
    ensures
        match r {
            Some((name, j)) => parse_ident(s@, i as int) == Some((name@, j as int))
                && i < j <= s@.len(),
            None => parse_ident(s@, i as int) is None,
        },
{
    if i < n && e_is_ident_start(s.get_char(i)) {
        let j = e_ident_end(s, i, n);
        proof {
            lemma_ident_end(s@, i as int);
            assert(ident_end(s@, i as int) == ident_end(s@, i + 1));
            lemma_ident_end(s@, i + 1);
        }
        let name = s.substring_char(i, j).to_owned();
        Some((name, j))
    } else {
        None
    }
}

proof fn lemma_digits_end_chars(s: Seq<char>, i: int)
    requires
        0 <= i <= s.len(),
    ensures
        forall|m: int| i <= m < digits_end(s, i) ==> is_digit_char(#[trigger] s[m]),
        i <= digits_end(s, i) <= s.len(),
    decreases s.len() - i,
{
    if i < s.len() && is_digit_char(s[i]) {
        lemma_digits_end_chars(s, i + 1);
    }
}

proof fn lemma_decimal_nonneg(s: Seq<char>, i: int, j: int)
    requires
        forall|m: int| i <= m < j ==> is_digit_char(#[trigger] s[m]),
    ensures
        decimal_value(s, i, j) >= 0,
    decreases j - i,
{
    if i < j {
        lemma_decimal_nonneg(s, i, j - 1);
    }
}

proof fn lemma_decimal_mono(s: Seq<char>, i: int, j: int, k: int)
    requires
        i <= j <= k,
        forall|m: int| i <= m < k ==> is_digit_char(#[trigger] s[m]),
    ensures
        decimal_value(s, i, j) <= decimal_value(s, i, k),
    decreases k - j,
{
    if j < k {
        lemma_decimal_mono(s, i, j, k - 1);
        lemma_decimal_nonneg(s, i, k - 1);
        let v = decimal_value(s, i, k - 1);
        assert(decimal_value(s, i, k) == v * 10 + digit_value(s[k - 1]));
        assert(v <= v * 10) by (nonlinear_arith)
            requires v >= 0;
    }
}

fn e_parse_number(s: &str, i: usize, n: usize) -> (r: Option<(usize, usize)>)
    requires
        i <= s@.len(),
        n == s@.len(),
    ensures
        match r {
            Some((v, j)) => parse_number(s@, i as int) == Some((v, j as int)) && i < j <= s@.len(),
            None => parse_number(s@, i as int) is None,
        },
{
    if i < n && e_is_digit(s.get_char(i)) {
        proof {
            lemma_digits_end_chars(s@, i as int);
            assert(digits_end(s@, i as int) == digits_end(s@, i + 1));
            lemma_digits_end_chars(s@, i + 1);
        }
        let ghost j_end = digits_end(s@, i as int);
        let mut k = i;
        let mut acc: usize = 0;
        while k < n && e_is_digit(s.get_char(k))
            invariant
                i <= k <= n,
                n == s@.len(),
                digits_end(s@, i as int) == digits_end(s@, k as int),
                j_end == digits_end(s@, i as int),
                acc == decimal_value(s@, i as int, k as int),
                k <= j_end,
                forall|m: int| i <= m < j_end ==> is_digit_char(#[trigger] s@[m]),
            decreases n - k,
        {
            proof {
                assert(digits_end(s@, k as int) == digits_end(s@, k + 1));
                lemma_digits_end_chars(s@, k + 1);
            }
            let c = s.get_char(k);
            let d: usize = ((c as u32) - ('0' as u32)) as usize;
            let acc10 = match acc.checked_mul(10) {
                Some(v) => v,
                None => {
                    proof {
                        lemma_decimal_mono(s@, i as int, k + 1, j_end);
                        lemma_decimal_nonneg(s@, i as int, k as int);
                        assert(decimal_value(s@, i as int, k + 1)
                            == acc * 10 + digit_value(s@[k as int]));
                    }
                    return None;
                },
            };
            let acc2 = match acc10.checked_add(d) {
                Some(v) => v,
                None => {
                    proof {
                        lemma_decimal_mono(s@, i as int, k + 1, j_end);
                        assert(decimal_value(s@, i as int, k + 1)
                            == acc * 10 + digit_value(s@[k as int]));
                    }
                    return None;
                },
            };
            acc = acc2;
            k = k + 1;
            proof {
                assert(decimal_value(s@, i as int, k as int)
                    == decimal_value(s@, i as int, k - 1) * 10 + digit_value(s@[k - 1]));
            }
        }
        proof {
            assert(k == j_end);
        }
        Some((acc, k))
    } else {
        None
    }
}

fn e_parse_string_lit(s: &str, i: usize, n: usize) -> (r: Option<(String, usize)>)
    requires
        i <= s@.len(),
        n == s@.len(),
    ensures
        match r {
            Some((v, j)) => parse_string_lit(s@, i as int) == Some((v@, j as int))
                && i < j <= s@.len(),
            None => parse_string_lit(s@, i as int) is None,
        },
{
    if i < n && e_is_quote(s.get_char(i)) {
        let mut j = i + 1;
        while j < n && !e_is_quote(s.get_char(j))
            invariant
                i + 1 <= j <= n,
                n == s@.len(),
                string_end(s@, i + 1) == string_end(s@, j as int),
            decreases n - j,
        {
            j = j + 1;
        }
        if j < n {
            let v = s.substring_char(i + 1, j).to_owned();
            Some((v, j + 1))
        } else {
            None
        }
    } else {
        None
    }
}

// ---------------------------------------------------------------------------
// The executable parser: attributes and types
// ---------------------------------------------------------------------------

fn e_parse_attr(s: &str, i: usize, n: usize) -> (r: Option<((String, String), usize)>)
    requires
        i <= s@.len(),
        n == s@.len(),
    ensures
        match r {
            Some((kv, j)) => parse_attr(s@, i as int) == Some(((kv.0@, kv.1@), j as int))
                && i < j <= s@.len(),
            None => parse_attr(s@, i as int) is None,
        },
{
    let j = e_skip_ws(s, i, n);
    match e_parse_ident(s, j, n) {
        None => None,
        Some((key, j2)) => {
            if j2 < n && s.get_char(j2) == '=' {
                match e_parse_string_lit(s, j2 + 1, n) {
                    None => None,
                    Some((value, j3)) => Some(((key, value), j3)),
                }
            } else {
                None
            }
        },
    }
}

fn e_parse_attr_list(s: &str, i: usize, n: usize) -> (r: Option<(Vec<(String, String)>, usize)>)
    requires
        i <= s@.len(),
        n == s@.len(),
    ensures
        match r {
            Some((attrs, j)) => parse_attr_list(s@, i as int)
                == Some((crate::types::attributes_view(attrs@), j as int))
                && i < j <= s@.len(),
            None => parse_attr_list(s@, i as int) is None,
        },
    decreases s@.len() - i,
{
    match e_parse_attr(s, i, n) {
        None => None,
        Some((attr, j)) => {
            let k = e_skip_ws(s, j, n);
            if k < n && s.get_char(k) == ']' {
                let mut attrs: Vec<(String, String)> = Vec::new();
                attrs.push(attr);
                proof {
                    assert(crate::types::attributes_view(attrs@)
                        =~= seq![(attrs@[0].0@, attrs@[0].1@)]);
                }
                Some((attrs, k + 1))
            } else if k < n && s.get_char(k) == ',' {
                match e_parse_attr_list(s, k + 1, n) {
                    None => None,
                    Some((rest, j2)) => {
                        let ghost restv = rest@;
                        let ghost attrv = (attr.0@, attr.1@);
                        let mut attrs = rest;
                        attrs.insert(0, attr);
                        proof {
                            assert(crate::types::attributes_view(attrs@)
                                =~= seq![attrv] + crate::types::attributes_view(restv));
                        }
                        Some((attrs, j2))
                    },
                }
            } else {
                None
            }
        },
    }
}

fn e_parse_attrs_opt(s: &str, i: usize, n: usize) -> (r: Option<(Vec<(String, String)>, usize)>)
    requires
        i <= s@.len(),
        n == s@.len(),
    ensures
        match r {
            Some((attrs, j)) => parse_attrs_opt(s@, i as int)
                == Some((crate::types::attributes_view(attrs@), j as int))
                && i <= j <= s@.len(),
            None => parse_attrs_opt(s@, i as int) is None,
        },
{
    let j = e_skip_ws(s, i, n);
    if j < n && j + 1 < n && s.get_char(j) == '@' && s.get_char(j + 1) == '[' {
        let k = e_skip_ws(s, j + 2, n);
        if k < n && s.get_char(k) == ']' {
            let attrs: Vec<(String, String)> = Vec::new();
            proof {
                assert(crate::types::attributes_view(attrs@)
                    =~= Seq::<(Seq<char>, Seq<char>)>::empty());
            }
            Some((attrs, k + 1))
        } else {
            e_parse_attr_list(s, j + 2, n)
        }
    } else {
        let attrs: Vec<(String, String)> = Vec::new();
        proof {
            assert(crate::types::attributes_view(attrs@)
                =~= Seq::<(Seq<char>, Seq<char>)>::empty());
        }
        Some((attrs, i))
    }
}

fn e_parse_stars(s: &str, i: usize, n: usize) -> (r: (usize, usize))
    requires
        i <= s@.len(),
        n == s@.len(),
    ensures
        parse_stars(s@, i as int) == (r.0 as nat, r.1 as int),
        i <= r.1 <= s@.len(),
        r.0 as int <= s@.len() - i,
    decreases s@.len() - i,
{
    let j = e_skip_ws(s, i, n);
    if j < n && s.get_char(j) == '*' {
        let (cnt, k) = e_parse_stars(s, j + 1, n);
        (cnt + 1, k)
    } else {
        (0, i)
    }
}

pub(crate) fn e_parse_type(s: &str, i: usize, n: usize) -> (r: Option<(Type, usize)>)
    requires
        i <= s@.len(),
        n == s@.len(),
    ensures
        match r {
            Some((t, j)) => parse_type(s@, i as int) == Some((t@, j as int)) && i <= j <= s@.len(),
            None => parse_type(s@, i as int) is None,
        },
    decreases s@.len() - i,
{
    let j = e_skip_ws(s, i, n);
    if j >= n {
        return None;
    }
    let c = s.get_char(j);
    if c == '[' {
        match e_parse_type(s, j + 1, n) {
            None => None,
            Some((inner, j2)) => {
                let j3 = e_skip_ws(s, j2, n);
                if j3 < n && s.get_char(j3) == ':' {
                    let j4 = e_skip_ws(s, j3 + 1, n);
                    match e_parse_number(s, j4, n) {
                        None => None,
                        Some((len, j5)) => {
                            let j6 = e_skip_ws(s, j5, n);
                            if j6 < n && s.get_char(j6) == ']' {
                                let (cnt, j7) = e_parse_stars(s, j6 + 1, n);
                                let t = apply_stars(Type::Array(Box::new(inner), len), cnt);
                                Some((t, j7))
                            } else {
                                None
                            }
                        },
                    }
                } else {
                    None
                }
            },
        }
    } else if c == '<' {
        match e_parse_type(s, j + 1, n) {
            None => None,
            Some((inner, j2)) => {
                let j3 = e_skip_ws(s, j2, n);
                if j3 < n && s.get_char(j3) == '>' {
                    let (cnt, j4) = e_parse_stars(s, j3 + 1, n);
                    let t = apply_stars(Type::Vector(Box::new(inner)), cnt);
                    Some((t, j4))
                } else {
                    None
                }
            },
        }
    } else {
        match e_parse_ident(s, j, n) {
            None => None,
            Some((name, j2)) => {
                let (cnt, j3) = e_parse_stars(s, j2, n);
                let t = apply_stars(Type::Named(name), cnt);
                Some((t, j3))
            },
        }
    }
}

fn e_parse_field(s: &str, i: usize, n: usize) -> (r: Option<(FieldTok, usize)>)
    requires
        i <= s@.len(),
        n == s@.len(),
    ensures
        match r {
            Some((f, j)) => parse_field(s@, i as int) == Some((f@, j as int)) && i <= j <= s@.len(),
            None => parse_field(s@, i as int) is None,
        },
{
    match e_parse_attrs_opt(s, i, n) {
        None => None,
        Some((attrs, j)) => {
            let j2 = e_skip_ws(s, j, n);
            match e_parse_ident(s, j2, n) {
                None => None,
                Some((name, j3)) => {
                    let j4 = e_skip_ws(s, j3, n);
                    if j4 < n && s.get_char(j4) == ':' {
                        match e_parse_type(s, j4 + 1, n) {
                            None => None,
                            Some((ty, j5)) => Some((FieldTok { attributes: attrs, name, ty }, j5)),
                        }
                    } else {
                        None
                    }
                },
            }
        },
    }
}

fn e_parse_fields_nonempty(s: &str, i: usize, n: usize, close: char) -> (r: Option<(Vec<FieldTok>, usize)>)
    requires
        i <= s@.len(),
        n == s@.len(),
    ensures
        match r {
            Some((fields, j)) => parse_fields_nonempty(s@, i as int, close)
                == Some((field_toks_view(fields@), j as int))
                && i <= j <= s@.len(),
            None => parse_fields_nonempty(s@, i as int, close) is None,
        },
    decreases s@.len() - i,
{
    match e_parse_field(s, i, n) {
        None => None,
        Some((f, j)) => {
            let k = e_skip_ws(s, j, n);
            if k < n && s.get_char(k) == close {
                let mut fields: Vec<FieldTok> = Vec::new();
                let ghost fv = f@;
                fields.push(f);
                proof {
                    assert(field_toks_view(fields@) =~= seq![fv]);
                }
                Some((fields, k + 1))
            } else if k < n && s.get_char(k) == ',' {
                let m = e_skip_ws(s, k + 1, n);
                if m < n && s.get_char(m) == close {
                    let mut fields: Vec<FieldTok> = Vec::new();
                    let ghost fv = f@;
                    fields.push(f);
                    proof {
                        assert(field_toks_view(fields@) =~= seq![fv]);
                    }
                    Some((fields, m + 1))
                } else {
                    match e_parse_fields_nonempty(s, k + 1, n, close) {
                        None => None,
                        Some((rest, j2)) => {
                            let ghost fv = f@;
                            let ghost restv = rest@;
                            let mut fields = rest;
                            fields.insert(0, f);
                            proof {
                                assert(field_toks_view(fields@)
                                    =~= seq![fv] + field_toks_view(restv));
                            }
                            Some((fields, j2))
                        },
                    }
                }
            } else {
                None
            }
        },
    }
}

fn e_parse_fields(s: &str, i: usize, n: usize, close: char) -> (r: Option<(Vec<FieldTok>, usize)>)
    requires
        i <= s@.len(),
        n == s@.len(),
    ensures
        match r {
            Some((fields, j)) => parse_fields(s@, i as int, close)
                == Some((field_toks_view(fields@), j as int))
                && i <= j <= s@.len(),
            None => parse_fields(s@, i as int, close) is None,
        },
{
    let j = e_skip_ws(s, i, n);
    if j < n && s.get_char(j) == close {
        let fields: Vec<FieldTok> = Vec::new();
        proof {
            assert(field_toks_view(fields@) =~= Seq::<FieldTokV>::empty());
        }
        Some((fields, j + 1))
    } else {
        e_parse_fields_nonempty(s, i, n, close)
    }
}

fn e_parse_variants_nonempty(s: &str, i: usize, n: usize) -> (r: Option<(Vec<String>, usize)>)
    requires
        i <= s@.len(),
        n == s@.len(),
    ensures
        match r {
            Some((names, j)) => parse_variants_nonempty(s@, i as int)
                == Some((crate::types::names_view(names@), j as int))
                && i <= j <= s@.len(),
            None => parse_variants_nonempty(s@, i as int) is None,
        },
    decreases s@.len() - i,
{
    let j0 = e_skip_ws(s, i, n);
    match e_parse_ident(s, j0, n) {
        None => None,
        Some((name, j)) => {
            let k = e_skip_ws(s, j, n);
            if k < n && s.get_char(k) == '}' {
                let mut names: Vec<String> = Vec::new();
                let ghost nv = name@;
                names.push(name);
                proof {
                    assert(crate::types::names_view(names@) =~= seq![nv]);
                }
                Some((names, k + 1))
            } else if k < n && s.get_char(k) == ',' {
                let m = e_skip_ws(s, k + 1, n);
                if m < n && s.get_char(m) == '}' {
                    let mut names: Vec<String> = Vec::new();
                    let ghost nv = name@;
                    names.push(name);
                    proof {
                        assert(crate::types::names_view(names@) =~= seq![nv]);
                    }
                    Some((names, m + 1))
                } else {
                    match e_parse_variants_nonempty(s, k + 1, n) {
                        None => None,
                        Some((rest, j2)) => {
                            let ghost nv = name@;
                            let ghost restv = rest@;
                            let mut names = rest;
                            names.insert(0, name);
                            proof {
                                assert(crate::types::names_view(names@)
                                    =~= seq![nv] + crate::types::names_view(restv));
                            }
                            Some((names, j2))
                        },
                    }
                }
            } else {
                None
            }
        },
    }
}

fn e_parse_variants(s: &str, i: usize, n: usize) -> (r: Option<(Vec<String>, usize)>)
    requires
        i <= s@.len(),
        n == s@.len(),
    ensures
        match r {
            Some((names, j)) => parse_variants(s@, i as int)
                == Some((crate::types::names_view(names@), j as int))
                && i <= j <= s@.len(),
            None => parse_variants(s@, i as int) is None,
        },
{
    let j = e_skip_ws(s, i, n);
    if j < n && s.get_char(j) == '}' {
        let names: Vec<String> = Vec::new();
        proof {
            assert(crate::types::names_view(names@) =~= Seq::<Seq<char>>::empty());
        }
        Some((names, j + 1))
    } else {
        e_parse_variants_nonempty(s, i, n)
    }
}

// ---------------------------------------------------------------------------
// The executable parser: paths and the file set
// ---------------------------------------------------------------------------

/// The directory part of `p`, trailing `/` kept.
fn e_dirname(p: &str) -> (r: String)
    ensures
        r@ == dirname(p@),
{
    let n = p.unicode_len();
    let mut k = n;
    while k > 0 && p.get_char(k - 1) != '/'
        invariant
            k <= n,
            n == p@.len(),
            dir_end(p@, n as int) == dir_end(p@, k as int),
        decreases k,
    {
        k = k - 1;
    }
    p.substring_char(0, k).to_owned()
}

/// An include path relative to the including file's directory; an absolute
/// path stands as written.
fn e_join_path(includer: &str, rel: &str) -> (r: String)
    ensures
        r@ == join_path(includer@, rel@),
{
    if rel.unicode_len() > 0 && rel.get_char(0) == '/' {
        rel.to_owned()
    } else {
        let mut out = e_dirname(includer);
        out.append(rel);
        out
    }
}

/// Wraps `t` in `cnt` pointer layers.
fn apply_stars(t: Type, cnt: usize) -> (r: Type)
    ensures
        r@ == (TypeExprV { base: t@.base, wraps: t@.wraps + ptr_wraps(cnt as nat) }),
{
    let ghost base0 = t@.base;
    let ghost wraps0 = t@.wraps;
    let mut t = t;
    let mut k: usize = 0;
    proof {
        assert(t@.wraps =~= wraps0 + ptr_wraps(0));
    }
    while k < cnt
        invariant
            k <= cnt,
            t@.base == base0,
            t@.wraps == wraps0 + ptr_wraps(k as nat),
        decreases cnt - k,
    {
        t = Type::Pointer(Box::new(t));
        k = k + 1;
        proof {
            assert((wraps0 + ptr_wraps((k - 1) as nat)).push(Wrap::Ptr)
                =~= wraps0 + ptr_wraps(k as nat));
        }
    }
    t
}

// ---------------------------------------------------------------------------
// Source files
// ---------------------------------------------------------------------------

/// One definition-language source file: its path and its full text.
#[derive(Debug)]
pub struct SourceFile {
    pub path: String,
    pub content: String,
}

impl SourceFile {
    pub fn new(path: &str) -> (r: Self)
        ensures
            r.path@ == path@,
            r.content@ == Seq::<char>::empty(),
    {
        SourceFile { path: path.to_owned(), content: String::new() }
    }

    /// The same file with its text filled in.
    pub fn contents(self, contents: String) -> (r: Self)
        ensures
            r.path@ == self.path@,
            r.content@ == contents@,
    {
        SourceFile { path: self.path, content: contents }
    }
}

/// The ghost image of a file set: each file's path and text.
pub open spec fn files_view(v: Seq<SourceFile>) -> Seq<(Seq<char>, Seq<char>)> {
    v.map_values(|f: SourceFile| (f.path@, f.content@))
}

/// Is `f` the path of one of the given source files?
pub open spec fn has_file(files: Seq<(Seq<char>, Seq<char>)>, f: Seq<char>) -> bool {
    exists|k: int| 0 <= k < files.len() && (#[trigger] files[k]).0 == f
}

fn e_file_lookup(files: &Vec<SourceFile>, path: &str) -> (r: Option<usize>)
    ensures
        match r {
            Some(k) => file_lookup(files_view(files@), path@) == Some(k as int),
            None => file_lookup(files_view(files@), path@) is None,
        },
{
    let ghost fv = files_view(files@);
    let n = files.len();
    let mut k: usize = 0;
    while k < n
        invariant
            k <= n,
            n == files@.len(),
            fv == files_view(files@),
            forall|j: int| 0 <= j < k ==> (#[trigger] fv[j]).0 != path@,
        decreases n - k,
    {
        if crate::primitives::str_eq(files[k].path.as_str(), path) {
            proof {
                assert(fv[k as int].0 == path@);
                lemma_file_lookup_found(fv, path@, k as int);
            }
            return Some(k);
        }
        proof {
            assert(fv[k as int].0 != path@);
        }
        k = k + 1;
    }
    proof {
        lemma_file_lookup_absent(fv, path@);
    }
    None
}

fn e_stack_contains(stack: &Vec<String>, path: &str) -> (r: bool)
    ensures
        r == stack_contains(crate::types::names_view(stack@), path@),
{
    let ghost sv = crate::types::names_view(stack@);
    let n = stack.len();
    let mut k: usize = 0;
    while k < n
        invariant
            k <= n,
            n == stack@.len(),
            sv == crate::types::names_view(stack@),
            forall|j: int| 0 <= j < k ==> #[trigger] sv[j] != path@,
        decreases n - k,
    {
        if crate::primitives::str_eq(stack[k].as_str(), path) {
            proof {
                assert(sv[k as int] == path@);
            }
            return true;
        }
        k = k + 1;
    }
    false
}

/// A copy of the stack with one more path on top.
fn copy_push(stack: &Vec<String>, path: &String) -> (r: Vec<String>)
    ensures
        crate::types::names_view(r@)
            =~= crate::types::names_view(stack@).push(path@),
        r@.len() == stack@.len() + 1,
{
    let n = stack.len();
    let mut out: Vec<String> = Vec::new();
    let mut k: usize = 0;
    while k < n
        invariant
            k <= n,
            n == stack@.len(),
            out@.len() == k,
            forall|j: int| 0 <= j < k ==> #[trigger] out@[j]@ == stack@[j]@,
        decreases n - k,
    {
        out.push(stack[k].clone());
        k = k + 1;
    }
    out.push(path.clone());
    proof {
        assert(crate::types::names_view(out@)
            =~= crate::types::names_view(stack@).push(path@));
    }
    out
}

// ---------------------------------------------------------------------------
// The executable parser: declarations and files
// ---------------------------------------------------------------------------

fn e_parse_decl(
    files: &Vec<SourceFile>,
    stack: &Vec<String>,
    path: &str,
    s: &str,
    i: usize,
    n: usize,
) -> (r: Result<(Token, usize), ParseError>)
    requires
        i <= s@.len(),
        n == s@.len(),
        stack@.len() <= files@.len() + 1,
    ensures
        match r {
            Ok((tok, j)) => parse_decl(
                files_view(files@),
                crate::types::names_view(stack@),
                path@,
                s@,
                i as int,
            ) == Some((tok@, j as int)) && i < j <= s@.len(),
            Err(e) => parse_decl(
                files_view(files@),
                crate::types::names_view(stack@),
                path@,
                s@,
                i as int,
            ) is None
                && (e@.file == path@ || has_file(files_view(files@), e@.file)),
        },
    decreases files@.len() + 1 - stack@.len(), s@.len() - i, 1int,
{
    let attrs_res = e_parse_attrs_opt(s, i, n);
    let (attrs, j0) = match attrs_res {
        Some(v) => v,
        None => {
            return Err(ParseError::new(path, i, "malformed attribute list"));
        },
    };
    let j = e_skip_ws(s, j0, n);
    let (word, j2) = match e_parse_ident(s, j, n) {
        Some(v) => v,
        None => {
            return Err(ParseError::new(path, j, "expected a declaration"));
        },
    };
    if crate::primitives::str_eq(word.as_str(), "struct") {
        let j3 = e_skip_ws(s, j2, n);
        let (name, j4) = match e_parse_ident(s, j3, n) {
            Some(v) => v,
            None => {
                return Err(ParseError::new(path, j3, "expected a struct name"));
            },
        };
        let j5 = e_skip_ws(s, j4, n);
        if j5 < n && s.get_char(j5) == '{' {
            match e_parse_fields(s, j5 + 1, n, '}') {
                Some((fields, j6)) => Ok((Token::Struct(attrs, name, fields), j6)),
                None => Err(ParseError::new(path, j5, "malformed field list")),
            }
        } else {
            Err(ParseError::new(path, j5, "expected a brace after the struct name"))
        }
    } else if crate::primitives::str_eq(word.as_str(), "enum")
        || crate::primitives::str_eq(word.as_str(), "union") {
        let is_enum = crate::primitives::str_eq(word.as_str(), "enum");
        let j3 = e_skip_ws(s, j2, n);
        let (name, j4) = match e_parse_ident(s, j3, n) {
            Some(v) => v,
            None => {
                return Err(ParseError::new(path, j3, "expected a name"));
            },
        };
        let j5 = e_skip_ws(s, j4, n);
        if j5 < n && s.get_char(j5) == '{' {
            match e_parse_variants(s, j5 + 1, n) {
                Some((variants, j6)) => {
                    if is_enum {
                        Ok((Token::Enum(attrs, name, variants), j6))
                    } else {
                        Ok((Token::Union(attrs, name, variants), j6))
                    }
                },
                None => Err(ParseError::new(path, j5, "malformed variant list")),
            }
        } else {
            Err(ParseError::new(path, j5, "expected a brace after the name"))
        }
    } else if crate::primitives::str_eq(word.as_str(), "fn") {
        if attrs.len() != 0 {
            return Err(ParseError::new(path, j, "attributes cannot prefix a function"));
        }
        let j3 = e_skip_ws(s, j2, n);
        let (name, j4) = match e_parse_ident(s, j3, n) {
            Some(v) => v,
            None => {
                return Err(ParseError::new(path, j3, "expected a function name"));
            },
        };
        let j5 = e_skip_ws(s, j4, n);
        if j5 < n && s.get_char(j5) == '(' {
            match e_parse_fields(s, j5 + 1, n, ')') {
                Some((params, j6)) => {
                    let ghost paramsv = params@;
                    let mut args: Vec<(String, Type)> = Vec::new();
                    let m = params.len();
                    let mut params = params;
                    let mut k: usize = 0;
                    while k < m
                        invariant
                            k <= m,
                            m == paramsv.len(),
                            params@.len() == m - k,
                            forall|q: int| 0 <= q < m - k
                                ==> (#[trigger] params@[q])@ == paramsv[q + k]@,
                            args@.len() == k,
                            forall|q: int| 0 <= q < k
                                ==> (#[trigger] args@[q]).0@ == paramsv[q]@.name
                                    && args@[q].1@ == paramsv[q]@.ty,
                        decreases m - k,
                    {
                        let f = params.remove(0);
                        proof {
                            assert(f@ == paramsv[k as int]@);
                        }
                        args.push((f.name, f.ty));
                        k = k + 1;
                    }
                    proof {
                        assert(args@.map_values(|a: (String, Type)| (a.0@, a.1@))
                            =~= field_toks_view(paramsv).map_values(
                                |f: FieldTokV| (f.name, f.ty)));
                    }
                    let j7 = e_skip_ws(s, j6, n);
                    if j7 < n && j7 + 1 < n && s.get_char(j7) == '-' && s.get_char(j7 + 1) == '>' {
                        match e_parse_type(s, j7 + 2, n) {
                            Some((ret, j8)) => Ok((Token::Function(name, args, Some(ret)), j8)),
                            None => Err(ParseError::new(path, j7, "malformed return type")),
                        }
                    } else {
                        Ok((Token::Function(name, args, None), j6))
                    }
                },
                None => Err(ParseError::new(path, j5, "malformed argument list")),
            }
        } else {
            Err(ParseError::new(path, j5, "expected a parenthesis after the function name"))
        }
    } else if crate::primitives::str_eq(word.as_str(), "include") {
        if attrs.len() != 0 {
            return Err(ParseError::new(path, j, "attributes cannot prefix an include"));
        }
        let j3 = e_skip_ws(s, j2, n);
        let (rel, j4) = match e_parse_string_lit(s, j3, n) {
            Some(v) => v,
            None => {
                return Err(ParseError::new(path, j3, "expected a quoted include path"));
            },
        };
        let full = e_join_path(path, rel.as_str());
        match e_parse_file(files, &full, stack, path, j3) {
            Ok(sub) => Ok((Token::Include(full, sub), j4)),
            Err(e) => Err(e),
        }
    } else {
        Err(ParseError::new(path, j, "expected struct, enum, union, fn or include"))
    }
}

fn e_parse_decls(
    files: &Vec<SourceFile>,
    stack: &Vec<String>,
    path: &str,
    s: &str,
    i: usize,
    n: usize,
) -> (r: Result<Vec<Token>, ParseError>)
    requires
        i <= s@.len(),
        n == s@.len(),
        stack@.len() <= files@.len() + 1,
    ensures
        match r {
            Ok(toks) => parse_decls(
                files_view(files@),
                crate::types::names_view(stack@),
                path@,
                s@,
                i as int,
            ) == Some(tokens_view(toks@)),
            Err(e) => parse_decls(
                files_view(files@),
                crate::types::names_view(stack@),
                path@,
                s@,
                i as int,
            ) is None
                && (e@.file == path@ || has_file(files_view(files@), e@.file)),
        },
    decreases files@.len() + 1 - stack@.len(), s@.len() - i, 2int,
{
    let j = e_skip_ws(s, i, n);
    if j >= n {
        let toks: Vec<Token> = Vec::new();
        proof {
            assert(tokens_view(toks@) =~= Seq::<TokenV>::empty());
        }
        return Ok(toks);
    }
    match e_parse_decl(files, stack, path, s, j, n) {
        Err(e) => Err(e),
        Ok((tok, j2)) => {
            match e_parse_decls(files, stack, path, s, j2, n) {
                Err(e) => Err(e),
                Ok(rest) => {
                    let ghost tokv = tok@;
                    let ghost restv = rest@;
                    let mut toks = rest;
                    toks.insert(0, tok);
                    proof {
                        assert(toks@.drop_first() =~= restv);
                        assert(toks@[0] == tok);
                        assert(toks@.len() > 0);
                        assert(tokens_view(toks@) == seq![token_view(toks@[0])]
                            + tokens_view(toks@.drop_first()));
                    }
                    Ok(toks)
                },
            }
        },
    }
}

fn e_parse_file(
    files: &Vec<SourceFile>,
    path: &String,
    stack: &Vec<String>,
    inc_file: &str,
    inc_offset: usize,
) -> (r: Result<Vec<Token>, ParseError>)
    ensures
        match r {
            Ok(toks) => parse_file(files_view(files@), path@, crate::types::names_view(stack@))
                == Some(tokens_view(toks@)),
            Err(e) => parse_file(files_view(files@), path@, crate::types::names_view(stack@))
                is None
                && (e@.file == inc_file@ || has_file(files_view(files@), e@.file)),
        },
    decreases files@.len() + 1 - stack@.len(), 0int, 0int,
{
    if stack.len() > files.len() {
        return Err(ParseError::new(inc_file, inc_offset, "includes nest too deeply"));
    }
    if e_stack_contains(stack, path.as_str()) {
        return Err(ParseError::new(inc_file, inc_offset, "cyclic include"));
    }
    match e_file_lookup(files, path.as_str()) {
        None => Err(ParseError::new(inc_file, inc_offset, "include file not found")),
        Some(k) => {
            proof {
                lemma_file_lookup(files_view(files@), path@);
                assert(has_file(files_view(files@), path@)) by {
                    assert(files_view(files@)[k as int].0 == path@);
                }
            }
            let new_stack = copy_push(stack, path);
            let text = &files[k].content;
            let nn = text.as_str().unicode_len();
            e_parse_decls(files, &new_stack, path.as_str(), text.as_str(), 0, nn)
        },
    }
}

// ---------------------------------------------------------------------------
// The public entry
// ---------------------------------------------------------------------------

/// A finished parse of one root text: either the declarations, or the first
/// error, attributed to the file it arose in.
#[derive(Debug)]
pub struct Tokenizer {
    pub tokens: Vec<Token>,
    pub error: Option<ParseError>,
}

impl Tokenizer {
    /// Parses `text` as definition-language source. `file_path` names the
    /// text's own file, for error attribution and for resolving relative
    /// `include` paths; `includes` supplies the text of every file an
    /// `include` may name.
    pub fn new(file_path: Option<&str>, text: &str, includes: &Vec<SourceFile>) -> (r: Self)
        ensures
            ({
                let rootv = match file_path {
                    Some(p) => p@,
                    None => Seq::<char>::empty(),
                };
                match r.error {
                    None => parse_root(files_view(includes@), rootv, text@)
                        == Some(tokens_view(r.tokens@)),
                    Some(e) => parse_root(files_view(includes@), rootv, text@) is None
                        && r.tokens@.len() == 0
                        && (e@.file == rootv || has_file(files_view(includes@), e@.file)),
                }
            }),
    {
        let root: &str = match file_path {
            Some(p) => p,
            None => "",
        };
        proof {
            reveal_strlit("");
            match file_path {
                Some(p) => {},
                None => {
                    assert(root@ =~= Seq::<char>::empty());
                },
            }
        }
        let mut stack: Vec<String> = Vec::new();
        stack.push(root.to_owned());
        proof {
            assert(crate::types::names_view(stack@) =~= seq![root@]);
        }
        let n = text.unicode_len();
        match e_parse_decls(includes, &stack, root, text, 0, n) {
            Ok(tokens) => Tokenizer { tokens, error: None },
            Err(e) => Tokenizer { tokens: Vec::new(), error: Some(e) },
        }
    }

    /// The parsed declarations, or `None` when the parse failed.
    pub fn tokens(&self) -> (r: Option<&Vec<Token>>)
        ensures
            match r {
                Some(toks) => self.error is None && toks == &self.tokens,
                None => !(self.error is None),
            },
    {
        match &self.error {
            None => Some(&self.tokens),
            Some(_) => None,
        }
    }
}

} // verus!
