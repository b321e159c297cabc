//! The wire grammar: parsing lines such as `<GET: ("k")>` and
//! `<ADD: ("k", "v")>` into [`Query`] values, and serializing a [`Query`]
//! back to its canonical wire text.
//!
//! Every parsing function is specified against a mathematical parser over
//! `Seq<char>`: it consumes a prefix of the input starting at a position and
//! either returns the next position together with the parsed value, or fails
//! and consumes nothing.

use vstd::prelude::*;
use vstd::string::*;

verus! {

/// A structured document node; kept for consumers that build tree-shaped
/// values out of parsed attributes. The cache protocol itself only uses
/// [`Query`].
#[derive(Debug, PartialEq, Eq)]
pub struct Element {
    name: String,
    attributes: Vec<(String, String)>,
    children: Vec<Element>,
}

/// A typed protocol command: look a key up, or bind a key to a value.
#[derive(Debug, Clone, PartialEq, Eq)]
pub enum Query {
    Get { key: String },
    Add { key: String, value: String },
}

/// The mathematical model of a [`Query`]: the same shape over `Seq<char>`.
pub enum QueryModel {
    Get { key: Seq<char> },
    Add { key: Seq<char>, value: Seq<char> },
}

impl View for Query {
    type V = QueryModel;

    open spec fn view(&self) -> QueryModel {
        match self {
            Query::Get { key } => QueryModel::Get { key: key@ },
            Query::Add { key, value } => QueryModel::Add { key: key@, value: value@ },
        }
    }
}

/// A parse failure. `at` is the position of the unconsumed input: the
/// failing parser consumed nothing, so everything from `at` on is the
/// unmatched remainder, kept for diagnostics.
#[derive(Clone, Copy, Debug, PartialEq, Eq)]
pub struct ParseError {
    pub at: usize,
}

/// The canonical wire text of a query, newline-terminated:
/// `<GET: ("key")>` or `<ADD: ("key", "value")>`.
pub open spec fn spec_serialize(q: QueryModel) -> Seq<char> {
    match q {
        QueryModel::Get { key } => seq!['<', 'G', 'E', 'T', ':', ' ', '(', '"'] + key + seq![
            '"',
            ')',
            '>',
            '\n',
        ],
        QueryModel::Add { key, value } => seq!['<', 'A', 'D', 'D', ':', ' ', '(', '"'] + key
            + seq!['"', ',', ' ', '"'] + value + seq!['"', ')', '>', '\n'],
    }
}

/// Whether a character beyond ASCII has the Unicode White_Space property.
/// Names what `char::is_whitespace` returns there; the full Unicode table
/// is not restated.
pub uninterp spec fn is_unicode_ws(c: char) -> bool;

/// Whether a character beyond ASCII is Unicode-alphabetic. Names what
/// `char::is_alphabetic` returns there.
pub uninterp spec fn is_unicode_alpha(c: char) -> bool;

/// A whitespace character, as `char::is_whitespace` classifies it: among
/// ASCII exactly tab, line feed, vertical tab, form feed, carriage return
/// and space; beyond ASCII the Unicode White_Space property.
pub open spec fn is_ws_char(c: char) -> bool {
    if (c as u32) < 128 {
        c == ' ' || c == '\t' || c == '\n' || c == '\r' || c == '\x0B' || c == '\x0C'
    } else {
        is_unicode_ws(c)
    }
}

/// An alphabetic character, as `char::is_alphabetic` classifies it: among
/// ASCII exactly the letters; beyond ASCII the Unicode Alphabetic property.
pub open spec fn is_alpha_char(c: char) -> bool {
    if (c as u32) < 128 {
        ('a' as u32) <= (c as u32) <= ('z' as u32) || ('A' as u32) <= (c as u32) <= ('Z' as u32)
    } else {
        is_unicode_alpha(c)
    }
}

/// Relies on `char::is_whitespace`: a pure classification by the Unicode
/// White_Space property, whose ASCII members its documentation lists.
pub assume_specification[ char::is_whitespace ](c: char) -> (b: bool)
    ensures
        b == is_ws_char(c),
        (c as u32) >= 128 ==> b == is_unicode_ws(c),
;

/// Relies on `char::is_alphabetic`: a pure classification by the Unicode
/// Alphabetic property, which among ASCII holds exactly of the letters.
pub assume_specification[ char::is_alphabetic ](c: char) -> (b: bool)
    ensures
        b == is_alpha_char(c),
        (c as u32) >= 128 ==> b == is_unicode_alpha(c),
;

/// A character allowed after the first in an identifier: alphabetic or hyphen.
pub open spec fn is_ident_char(c: char) -> bool {
    is_alpha_char(c) || c == '-'
}

/// Match one exact character at position `i`.
pub open spec fn sp_char(s: Seq<char>, i: int, c: char) -> Option<int> {
    if 0 <= i < s.len() && s[i] == c {
        Some(i + 1)
    } else {
        None
    }
}

/// Match an exact literal as a prefix of `s` starting at `i`.
pub open spec fn sp_literal(s: Seq<char>, i: int, lit: Seq<char>) -> Option<int> {
    if 0 <= i && i + lit.len() <= s.len() && s.subrange(i, i + lit.len()) == lit {
        Some(i + lit.len())
    } else {
        None
    }
}

/// Consume one character at `i` if one is there.
pub open spec fn sp_any(s: Seq<char>, i: int) -> Option<(int, char)> {
    if 0 <= i < s.len() {
        Some((i + 1, s[i]))
    } else {
        None
    }
}

/// Consume one whitespace character at `i`.
pub open spec fn sp_ws_char(s: Seq<char>, i: int) -> Option<(int, char)> {
    if 0 <= i < s.len() && is_ws_char(s[i]) {
        Some((i + 1, s[i]))
    } else {
        None
    }
}

/// The position of the first non-whitespace character at or after `i`
/// (zero-or-more whitespace repetition always succeeds).
pub open spec fn sp_ws_end(s: Seq<char>, i: int) -> int
    decreases s.len() - i,
{
    if 0 <= i < s.len() && is_ws_char(s[i]) {
        sp_ws_end(s, i + 1)
    } else {
        i
    }
}

/// One-or-more whitespace repetition: fails when no whitespace stands at `i`.
pub open spec fn sp_space1(s: Seq<char>, i: int) -> Option<int> {
    if 0 <= i < s.len() && is_ws_char(s[i]) {
        Some(sp_ws_end(s, i))
    } else {
        None
    }
}

/// The position of the first double quote at or after `i`, if any.
pub open spec fn sp_scan_quote(s: Seq<char>, i: int) -> Option<int>
    decreases s.len() - i,
{
    if i < 0 || i >= s.len() {
        None
    } else if s[i] == '"' {
        Some(i)
    } else {
        sp_scan_quote(s, i + 1)
    }
}

/// A quoted string: `"` , any run of non-quote characters , `"`.
/// Returns the position after the closing quote and the captured characters.
pub open spec fn sp_quoted(s: Seq<char>, i: int) -> Option<(int, Seq<char>)> {
    match sp_char(s, i, '"') {
        None => None,
        Some(i1) => match sp_scan_quote(s, i1) {
            None => None,
            Some(j) => Some((j + 1, s.subrange(i1, j))),
        },
    }
}

/// The end of the run of identifier characters starting at `i`.
pub open spec fn sp_ident_end(s: Seq<char>, i: int) -> int
    decreases s.len() - i,
{
    if 0 <= i < s.len() && is_ident_char(s[i]) {
        sp_ident_end(s, i + 1)
    } else {
        i
    }
}

/// An identifier: an alphabetic character followed by any run of alphabetic
/// or hyphen characters.
pub open spec fn sp_identifier(s: Seq<char>, i: int) -> Option<(int, Seq<char>)> {
    if 0 <= i < s.len() && is_alpha_char(s[i]) {
        Some((sp_ident_end(s, i + 1), s.subrange(i, sp_ident_end(s, i + 1))))
    } else {
        None
    }
}

/// Case-insensitive equality of one character against a lowercase ASCII
/// keyword character.
pub open spec fn eq_ci(a: char, b: char) -> bool {
    a == b || (('A' as u32) <= (a as u32) <= ('Z' as u32) && a as u32 + 32 == b as u32)
}

/// The identifier `idt` spells the lowercase keyword `kw`, ignoring ASCII
/// case.
pub open spec fn ident_matches_kw(idt: Seq<char>, kw: Seq<char>) -> bool {
    idt.len() == kw.len() && forall|k: int| 0 <= k < idt.len() ==> eq_ci(#[trigger] idt[k], kw[k])
}

/// `(` , ws* , quoted string , ws* , `)`.
pub open spec fn sp_key(s: Seq<char>, i: int) -> Option<(int, Seq<char>)> {
    match sp_char(s, i, '(') {
        None => None,
        Some(i1) => {
            let i2 = sp_ws_end(s, i1);
            match sp_quoted(s, i2) {
                None => None,
                Some((i3, k)) => {
                    let i4 = sp_ws_end(s, i3);
                    match sp_char(s, i4, ')') {
                        None => None,
                        Some(i5) => Some((i5, k)),
                    }
                },
            }
        },
    }
}

/// `(` , ws* , quoted string , ws* , `,` , ws* , quoted string , ws* , `)`.
pub open spec fn sp_key_val(s: Seq<char>, i: int) -> Option<(int, (Seq<char>, Seq<char>))> {
    match sp_char(s, i, '(') {
        None => None,
        Some(i1) => {
            let i2 = sp_ws_end(s, i1);
            match sp_quoted(s, i2) {
                None => None,
                Some((i3, k)) => {
                    let i4 = sp_ws_end(s, i3);
                    match sp_char(s, i4, ',') {
                        None => None,
                        Some(i5) => {
                            let i6 = sp_ws_end(s, i5);
                            match sp_quoted(s, i6) {
                                None => None,
                                Some((i7, v)) => {
                                    let i8 = sp_ws_end(s, i7);
                                    match sp_char(s, i8, ')') {
                                        None => None,
                                        Some(i9) => Some((i9, (k, v))),
                                    }
                                },
                            }
                        },
                    }
                },
            }
        },
    }
}

/// `<` , ws* , ident("get") , ws* , `:` , ws* , key , ws* , `>`.
pub open spec fn sp_get(s: Seq<char>, i: int) -> Option<(int, QueryModel)> {
    match sp_char(s, i, '<') {
        None => None,
        Some(i1) => {
            let i2 = sp_ws_end(s, i1);
            match sp_identifier(s, i2) {
                None => None,
                Some((i3, idt)) => if ident_matches_kw(idt, seq!['g', 'e', 't']) {
                    let i4 = sp_ws_end(s, i3);
                    match sp_char(s, i4, ':') {
                        None => None,
                        Some(i5) => {
                            let i6 = sp_ws_end(s, i5);
                            match sp_key(s, i6) {
                                None => None,
                                Some((i7, key)) => {
                                    let i8 = sp_ws_end(s, i7);
                                    match sp_char(s, i8, '>') {
                                        None => None,
                                        Some(i9) => Some((i9, QueryModel::Get { key })),
                                    }
                                },
                            }
                        },
                    }
                } else {
                    None
                },
            }
        },
    }
}

/// `<` , ws* , ident("add") , ws* , `:` , ws* , key_val , ws* , `>`.
pub open spec fn sp_add(s: Seq<char>, i: int) -> Option<(int, QueryModel)> {
    match sp_char(s, i, '<') {
        None => None,
        Some(i1) => {
            let i2 = sp_ws_end(s, i1);
            match sp_identifier(s, i2) {
                None => None,
                Some((i3, idt)) => if ident_matches_kw(idt, seq!['a', 'd', 'd']) {
                    let i4 = sp_ws_end(s, i3);
                    match sp_char(s, i4, ':') {
                        None => None,
                        Some(i5) => {
                            let i6 = sp_ws_end(s, i5);
                            match sp_key_val(s, i6) {
                                None => None,
                                Some((i7, (key, value))) => {
                                    let i8 = sp_ws_end(s, i7);
                                    match sp_char(s, i8, '>') {
                                        None => None,
                                        Some(i9) => Some((i9, QueryModel::Add { key, value })),
                                    }
                                },
                            }
                        },
                    }
                } else {
                    None
                },
            }
        },
    }
}

/// Ordered alternation: a GET query, or failing that an ADD query.
pub open spec fn sp_query(s: Seq<char>, i: int) -> Option<(int, QueryModel)> {
    match sp_get(s, i) {
        Some(r) => Some(r),
        None => sp_add(s, i),
    }
}

impl Query {
    /// Serialize to the canonical wire text, newline-terminated.
    pub fn serialize(&self) -> (r: String)
        ensures
            r@ == spec_serialize(self@),
    {
        match self {
            Query::Get { key } => {
                let mut s = String::new();
                s.append("<GET: (\"");
                s.append(key.as_str());
                s.append("\")>\n");
                proof {
                    reveal_strlit("<GET: (\"");
                    reveal_strlit("\")>\n");
                    assert(s@ =~= spec_serialize(self@));
                }
                s
            },
            Query::Add { key, value } => {
                let mut s = String::new();
                s.append("<ADD: (\"");
                s.append(key.as_str());
                s.append("\", \"");
                s.append(value.as_str());
                s.append("\")>\n");
                proof {
                    reveal_strlit("<ADD: (\"");
                    reveal_strlit("\", \"");
                    reveal_strlit("\")>\n");
                    assert(s@ =~= spec_serialize(self@));
                }
                s
            },
        }
    }
}

/// Whether `c` is whitespace, as the grammar counts it.
fn ws_char_pred(c: char) -> (b: bool)
    ensures
        b == is_ws_char(c),
{
    c.is_whitespace()
}

/// Whether `c` may begin an identifier.
fn alpha_char_pred(c: char) -> (b: bool)
    ensures
        b == is_alpha_char(c),
{
    c.is_alphabetic()
}

/// Whether `c` may continue an identifier.
fn ident_char_pred(c: char) -> (b: bool)
    ensures
        b == is_ident_char(c),
{
    alpha_char_pred(c) || c == '-'
}

/// Match the exact prefix `expected` at `pos`; on success return the
/// position just past it, on failure consume nothing.
pub fn match_literal(input: &str, pos: usize, expected: &str) -> (r: Result<usize, ParseError>)
    ensures
        match r {
            Ok(p) => sp_literal(input@, pos as int, expected@) == Some(p as int),
            Err(e) => sp_literal(input@, pos as int, expected@) is None && e.at == pos,
        },
{
    let n = input.unicode_len();
    let m = expected.unicode_len();
    if pos > n || m > n - pos {
        return Err(ParseError { at: pos });
    }
    let mut k: usize = 0;
    while k < m
        invariant
            0 <= k <= m,
            pos + m <= n,
            n == input@.len(),
            m == expected@.len(),
            forall|j: int| 0 <= j < k ==> input@[pos + j] == expected@[j],
        decreases m - k,
    {
        if input.get_char(pos + k) != expected.get_char(k) {
            proof {
                assert(input@.subrange(pos as int, pos + m)[k as int] == input@[pos + k]);
            }
            return Err(ParseError { at: pos });
        }
        k += 1;
    }
    proof {
        assert(input@.subrange(pos as int, pos + m) =~= expected@);
    }
    Ok(pos + m)
}

/// Consume one character, whatever it is.
pub fn any_char(input: &str, pos: usize) -> (r: Result<(usize, char), ParseError>)
    ensures
        match r {
            Ok((p, c)) => sp_any(input@, pos as int) == Some((p as int, c)),
            Err(e) => sp_any(input@, pos as int) is None && e.at == pos,
        },
{
    let n = input.unicode_len();
    if pos < n {
        Ok((pos + 1, input.get_char(pos)))
    } else {
        Err(ParseError { at: pos })
    }
}

/// Consume one whitespace character.
pub fn whitespace_char(input: &str, pos: usize) -> (r: Result<(usize, char), ParseError>)
    ensures
        match r {
            Ok((p, c)) => sp_ws_char(input@, pos as int) == Some((p as int, c)),
            Err(e) => sp_ws_char(input@, pos as int) is None && e.at == pos,
        },
{
    let n = input.unicode_len();
    if pos < n {
        let c = input.get_char(pos);
        if ws_char_pred(c) {
            Ok((pos + 1, c))
        } else {
            Err(ParseError { at: pos })
        }
    } else {
        Err(ParseError { at: pos })
    }
}

/// Skip any run of whitespace; always succeeds and returns the position of
/// the first non-whitespace character.
pub fn space0(input: &str, pos: usize) -> (r: usize)
    ensures
        r as int == sp_ws_end(input@, pos as int),
        pos <= r <= input@.len() || r == pos,
{
    let n = input.unicode_len();
    let mut p = pos;
    while p < n && ws_char_pred(input.get_char(p))
        invariant
            pos <= p,
            p <= n || p == pos,
            n == input@.len(),
            sp_ws_end(input@, pos as int) == sp_ws_end(input@, p as int),
        decreases n - p,
    {
        proof {
            assert(sp_ws_end(input@, p as int) == sp_ws_end(input@, p + 1));
        }
        p += 1;
    }
    proof {
        assert(sp_ws_end(input@, p as int) == p as int);
    }
    p
}

/// Skip whitespace, requiring at least one whitespace character.
pub fn space1(input: &str, pos: usize) -> (r: Result<usize, ParseError>)
    ensures
        match r {
            Ok(p) => sp_space1(input@, pos as int) == Some(p as int),
            Err(e) => sp_space1(input@, pos as int) is None && e.at == pos,
        },
{
    let n = input.unicode_len();
    if pos < n && ws_char_pred(input.get_char(pos)) {
        Ok(space0(input, pos))
    } else {
        Err(ParseError { at: pos })
    }
}

/// Parse an identifier: one alphabetic character, then any run of
/// alphabetic or hyphen characters.
pub fn identifier(input: &str, pos: usize) -> (r: Result<(usize, String), ParseError>)
    ensures
        match r {
            Ok((p, idt)) => sp_identifier(input@, pos as int) == Some((p as int, idt@)),
            Err(e) => sp_identifier(input@, pos as int) is None && e.at == pos,
        },
{
    let n = input.unicode_len();
    if pos >= n || !alpha_char_pred(input.get_char(pos)) {
        return Err(ParseError { at: pos });
    }
    let mut p = pos + 1;
    while p < n && ident_char_pred(input.get_char(p))
        invariant
            pos + 1 <= p <= n,
            n == input@.len(),
            sp_ident_end(input@, pos + 1) == sp_ident_end(input@, p as int),
        decreases n - p,
    {
        proof {
            assert(sp_ident_end(input@, p as int) == sp_ident_end(input@, p + 1));
        }
        p += 1;
    }
    proof {
        assert(sp_ident_end(input@, p as int) == p as int);
    }
    let matched = input.substring_char(pos, p).to_owned();
    Ok((p, matched))
}

/// Whether the identifier spells the lowercase keyword `kw`, ignoring ASCII
/// case.
fn ident_is_kw(idt: &String, kw: &str) -> (b: bool)
    ensures
        b == ident_matches_kw(idt@, kw@),
{
    let s = idt.as_str();
    let n = s.unicode_len();
    let m = kw.unicode_len();
    if n != m {
        return false;
    }
    let mut k: usize = 0;
    while k < n
        invariant
            0 <= k <= n,
            n == idt@.len(),
            n == kw@.len(),
            s@ == idt@,
            forall|j: int| 0 <= j < k ==> eq_ci(#[trigger] idt@[j], kw@[j]),
        decreases n - k,
    {
        let a = s.get_char(k);
        let b = kw.get_char(k);
        let au = a as u32;
        let bu = b as u32;
        if !(a == b || (65 <= au && au <= 90 && au + 32 == bu)) {
            return false;
        }
        k += 1;
    }
    true
}

/// Parse a quoted string: `"`, any run of non-quote characters, `"`.
/// Returns the captured characters without the quotes.
pub fn quoted_string(input: &str, pos: usize) -> (r: Result<(usize, String), ParseError>)
    ensures
        match r {
            Ok((p, cs)) => sp_quoted(input@, pos as int) == Some((p as int, cs@)),
            Err(e) => sp_quoted(input@, pos as int) is None && e.at == pos,
        },
{
    let n = input.unicode_len();
    if pos >= n || input.get_char(pos) != '"' {
        return Err(ParseError { at: pos });
    }
    let mut j = pos + 1;
    while j < n && input.get_char(j) != '"'
        invariant
            pos + 1 <= j <= n,
            n == input@.len(),
            sp_scan_quote(input@, pos + 1) == sp_scan_quote(input@, j as int),
        decreases n - j,
    {
        proof {
            assert(sp_scan_quote(input@, j as int) == sp_scan_quote(input@, j + 1));
        }
        j += 1;
    }
    if j >= n {
        proof {
            assert(sp_scan_quote(input@, j as int) is None);
        }
        return Err(ParseError { at: pos });
    }
    let content = input.substring_char(pos + 1, j).to_owned();
    proof {
        assert(sp_scan_quote(input@, j as int) == Some(j as int));
    }
    Ok((j + 1, content))
}

/// Match one exact character.
fn match_char(input: &str, pos: usize, c: char) -> (r: Option<usize>)
    ensures
        match r {
            Some(p) => sp_char(input@, pos as int, c) == Some(p as int),
            None => sp_char(input@, pos as int, c) is None,
        },
{
    let n = input.unicode_len();
    if pos < n && input.get_char(pos) == c {
        Some(pos + 1)
    } else {
        None
    }
}

/// Parse a parenthesized key: `(` , ws* , quoted string , ws* , `)`.
pub fn parse_key(input: &str, pos: usize) -> (r: Result<(usize, String), ParseError>)
    ensures
        match r {
            Ok((p, k)) => sp_key(input@, pos as int) == Some((p as int, k@)),
            Err(e) => sp_key(input@, pos as int) is None && e.at == pos,
        },
{
    let i1 = match match_char(input, pos, '(') {
        Some(p) => p,
        None => { return Err(ParseError { at: pos }); },
    };
    let i2 = space0(input, i1);
    let (i3, k) = match quoted_string(input, i2) {
        Ok(x) => x,
        Err(_) => { return Err(ParseError { at: pos }); },
    };
    let i4 = space0(input, i3);
    let i5 = match match_char(input, i4, ')') {
        Some(p) => p,
        None => { return Err(ParseError { at: pos }); },
    };
    Ok((i5, k))
}

/// Parse a parenthesized key-value pair:
/// `(` , ws* , quoted string , ws* , `,` , ws* , quoted string , ws* , `)`.
pub fn parse_key_val(input: &str, pos: usize) -> (r: Result<(usize, (String, String)), ParseError>)
    ensures
        match r {
            Ok((p, kv)) => sp_key_val(input@, pos as int) == Some((p as int, (kv.0@, kv.1@))),
            Err(e) => sp_key_val(input@, pos as int) is None && e.at == pos,
        },
{
    let i1 = match match_char(input, pos, '(') {
        Some(p) => p,
        None => { return Err(ParseError { at: pos }); },
    };
    let i2 = space0(input, i1);
    let (i3, k) = match quoted_string(input, i2) {
        Ok(x) => x,
        Err(_) => { return Err(ParseError { at: pos }); },
    };
    let i4 = space0(input, i3);
    let i5 = match match_char(input, i4, ',') {
        Some(p) => p,
        None => { return Err(ParseError { at: pos }); },
    };
    let i6 = space0(input, i5);
    let (i7, v) = match quoted_string(input, i6) {
        Ok(x) => x,
        Err(_) => { return Err(ParseError { at: pos }); },
    };
    let i8 = space0(input, i7);
    let i9 = match match_char(input, i8, ')') {
        Some(p) => p,
        None => { return Err(ParseError { at: pos }); },
    };
    Ok((i9, (k, v)))
}

/// Parse a GET query: `<` , ws* , ident("get") , ws* , `:` , ws* , key ,
/// ws* , `>`.
pub fn parse_get(input: &str, pos: usize) -> (r: Result<(usize, Query), ParseError>)
    ensures
        match r {
            Ok((p, q)) => sp_get(input@, pos as int) == Some((p as int, q@)),
            Err(e) => sp_get(input@, pos as int) is None && e.at == pos,
        },
{
    let i1 = match match_char(input, pos, '<') {
        Some(p) => p,
        None => { return Err(ParseError { at: pos }); },
    };
    let i2 = space0(input, i1);
    let (i3, idt) = match identifier(input, i2) {
        Ok(x) => x,
        Err(_) => { return Err(ParseError { at: pos }); },
    };
    proof {
        reveal_strlit("get");
        assert("get"@ =~= seq!['g', 'e', 't']);
    }
    if !ident_is_kw(&idt, "get") {
        return Err(ParseError { at: pos });
    }
    let i4 = space0(input, i3);
    let i5 = match match_char(input, i4, ':') {
        Some(p) => p,
        None => { return Err(ParseError { at: pos }); },
    };
    let i6 = space0(input, i5);
    let (i7, key) = match parse_key(input, i6) {
        Ok(x) => x,
        Err(_) => { return Err(ParseError { at: pos }); },
    };
    let i8 = space0(input, i7);
    let i9 = match match_char(input, i8, '>') {
        Some(p) => p,
        None => { return Err(ParseError { at: pos }); },
    };
    Ok((i9, Query::Get { key }))
}

/// Parse an ADD query: `<` , ws* , ident("add") , ws* , `:` , ws* ,
/// key_val , ws* , `>`.
pub fn parse_add(input: &str, pos: usize) -> (r: Result<(usize, Query), ParseError>)
    ensures
        match r {
            Ok((p, q)) => sp_add(input@, pos as int) == Some((p as int, q@)),
            Err(e) => sp_add(input@, pos as int) is None && e.at == pos,
        },
{
    let i1 = match match_char(input, pos, '<') {
        Some(p) => p,
        None => { return Err(ParseError { at: pos }); },
    };
    let i2 = space0(input, i1);
    let (i3, idt) = match identifier(input, i2) {
        Ok(x) => x,
        Err(_) => { return Err(ParseError { at: pos }); },
    };
    proof {
        reveal_strlit("add");
        assert("add"@ =~= seq!['a', 'd', 'd']);
    }
    if !ident_is_kw(&idt, "add") {
        return Err(ParseError { at: pos });
    }
    let i4 = space0(input, i3);
    let i5 = match match_char(input, i4, ':') {
        Some(p) => p,
        None => { return Err(ParseError { at: pos }); },
    };
    let i6 = space0(input, i5);
    let (i7, kv) = match parse_key_val(input, i6) {
        Ok(x) => x,
        Err(_) => { return Err(ParseError { at: pos }); },
    };
    let i8 = space0(input, i7);
    let i9 = match match_char(input, i8, '>') {
        Some(p) => p,
        None => { return Err(ParseError { at: pos }); },
    };
    let (key, value) = kv;
    Ok((i9, Query::Add { key, value }))
}

/// Parse a query: a GET, or failing that an ADD (ordered alternation).
/// Consumes a prefix of the input; on success the returned position marks
/// the unconsumed remainder.
pub fn parse_query(input: &str, pos: usize) -> (r: Result<(usize, Query), ParseError>)
    ensures
        match r {
            Ok((p, q)) => sp_query(input@, pos as int) == Some((p as int, q@)),
            Err(e) => sp_query(input@, pos as int) is None && e.at == pos,
        },
{
    match parse_get(input, pos) {
        Ok(x) => Ok(x),
        Err(_) => parse_add(input, pos),
    }
}

impl Query {
    /// Build a query from one wire-format line. A line that matches no
    /// grammar alternative yields a [`ParseError`] whose position marks the
    /// whole line as unconsumed; the caller decides how to report it.
    pub fn from_string(bits: String) -> (r: Result<Self, ParseError>)
        ensures
            match r {
                Ok(q) => match sp_query(bits@, 0) {
                    Some((n, qm)) => q@ == qm,
                    None => false,
                },
                Err(e) => sp_query(bits@, 0) is None && e.at == 0,
            },
    {
        match parse_query(bits.as_str(), 0) {
            Ok((_, q)) => Ok(q),
            Err(e) => Err(e),
        }
    }
}

/// No double-quote character occurs in `s`: such strings can be carried in
/// the wire format, which has no escaping.
pub open spec fn quote_free(s: Seq<char>) -> bool {
    forall|k: int| 0 <= k < s.len() ==> s[k] != '"'
}

/// Both strings of the query are quote-free.
pub open spec fn query_quote_free(q: QueryModel) -> bool {
    match q {
        QueryModel::Get { key } => quote_free(key),
        QueryModel::Add { key, value } => quote_free(key) && quote_free(value),
    }
}

/// Scanning for a quote finds the first one.
proof fn lemma_scan_quote_finds(s: Seq<char>, i: int, j: int)
    requires
        0 <= i <= j < s.len(),
        s[j] == '"',
        forall|m: int| i <= m < j ==> s[m] != '"',
    ensures
        sp_scan_quote(s, i) == Some(j),
    decreases j - i,
{
    if i < j {
        assert(s[i] != '"');
        lemma_scan_quote_finds(s, i + 1, j);
    }
}

/// Law (round trip): parsing the serialized wire text of any query whose
/// strings are quote-free yields that query back, consuming everything but
/// the final newline.
#[verifier::rlimit(100)]
pub proof fn lemma_round_trip(q: QueryModel)
    requires
        query_quote_free(q),
    ensures
        sp_query(spec_serialize(q), 0) == Some((spec_serialize(q).len() as int - 1, q)),
{
    match q {
        QueryModel::Get { key } => {
            let s = spec_serialize(q);
            let kl = key.len() as int;
            assert(s.len() == 12 + kl);
            assert(s[0] == '<');
            assert(s[1] == 'G');
            assert(s[2] == 'E');
            assert(s[3] == 'T');
            assert(s[4] == ':');
            assert(s[5] == ' ');
            assert(s[6] == '(');
            assert(s[7] == '"');
            assert(forall|m: int| 0 <= m < kl ==> s[8 + m] == key[m]);
            assert(s[8 + kl] == '"');
            assert(s[9 + kl] == ')');
            assert(s[10 + kl] == '>');
            assert(s[11 + kl] == '\n');
            assert(sp_char(s, 0, '<') == Some(1int));
            assert(sp_ws_end(s, 1) == 1);
            assert(sp_ident_end(s, 4) == 4);
            assert(sp_ident_end(s, 3) == 4);
            assert(sp_ident_end(s, 2) == 4);
            let idt = s.subrange(1, 4);
            assert(idt =~= seq!['G', 'E', 'T']);
            assert(sp_identifier(s, 1) == Some((4int, idt)));
            assert(eq_ci('G', 'g') && eq_ci('E', 'e') && eq_ci('T', 't'));
            assert(ident_matches_kw(idt, seq!['g', 'e', 't']));
            assert(sp_ws_end(s, 4) == 4);
            assert(sp_char(s, 4, ':') == Some(5int));
            assert(sp_ws_end(s, 6) == 6);
            assert(sp_ws_end(s, 5) == 6);
            assert(sp_char(s, 6, '(') == Some(7int));
            assert(sp_ws_end(s, 7) == 7);
            assert(sp_char(s, 7, '"') == Some(8int));
            assert(forall|m: int| 8 <= m < 8 + kl ==> s[m] != '"');
            lemma_scan_quote_finds(s, 8, 8 + kl);
            assert(s.subrange(8, 8 + kl) =~= key);
            assert(sp_quoted(s, 7) == Some((9 + kl, key)));
            assert(sp_ws_end(s, 9 + kl) == 9 + kl);
            assert(sp_char(s, 9 + kl, ')') == Some(10 + kl));
            assert(sp_key(s, 6) == Some((10 + kl, key)));
            assert(sp_ws_end(s, 10 + kl) == 10 + kl);
            assert(sp_char(s, 10 + kl, '>') == Some(11 + kl));
            assert(sp_get(s, 0) == Some((11 + kl, q)));
        },
        QueryModel::Add { key, value } => {
            let s = spec_serialize(q);
            let kl = key.len() as int;
            let vl = value.len() as int;
            assert(s.len() == 16 + kl + vl);
            assert(s[0] == '<');
            assert(s[1] == 'A');
            assert(s[2] == 'D');
            assert(s[3] == 'D');
            assert(s[4] == ':');
            assert(s[5] == ' ');
            assert(s[6] == '(');
            assert(s[7] == '"');
            assert(forall|m: int| 0 <= m < kl ==> s[8 + m] == key[m]);
            assert(s[8 + kl] == '"');
            assert(s[9 + kl] == ',');
            assert(s[10 + kl] == ' ');
            assert(s[11 + kl] == '"');
            assert(forall|m: int| 0 <= m < vl ==> s[12 + kl + m] == value[m]);
            assert(s[12 + kl + vl] == '"');
            assert(s[13 + kl + vl] == ')');
            assert(s[14 + kl + vl] == '>');
            assert(s[15 + kl + vl] == '\n');
            assert(sp_char(s, 0, '<') == Some(1int));
            assert(sp_ws_end(s, 1) == 1);
            assert(sp_ident_end(s, 4) == 4);
            assert(sp_ident_end(s, 3) == 4);
            assert(sp_ident_end(s, 2) == 4);
            let idt = s.subrange(1, 4);
            assert(idt =~= seq!['A', 'D', 'D']);
            assert(sp_identifier(s, 1) == Some((4int, idt)));
            // The GET alternative is tried first and fails on the keyword.
            assert(!ident_matches_kw(idt, seq!['g', 'e', 't'])) by {
                assert(idt[0] == 'A');
                assert(!eq_ci(idt[0], seq!['g', 'e', 't'][0]));
            }
            assert(sp_get(s, 0) is None);
            assert(eq_ci('A', 'a') && eq_ci('D', 'd'));
            assert(ident_matches_kw(idt, seq!['a', 'd', 'd']));
            assert(sp_ws_end(s, 4) == 4);
            assert(sp_char(s, 4, ':') == Some(5int));
            assert(sp_ws_end(s, 6) == 6);
            assert(sp_ws_end(s, 5) == 6);
            assert(sp_char(s, 6, '(') == Some(7int));
            assert(sp_ws_end(s, 7) == 7);
            assert(sp_char(s, 7, '"') == Some(8int));
            assert(forall|m: int| 8 <= m < 8 + kl ==> s[m] != '"');
            lemma_scan_quote_finds(s, 8, 8 + kl);
            assert(s.subrange(8, 8 + kl) =~= key);
            assert(sp_quoted(s, 7) == Some((9 + kl, key)));
            assert(sp_ws_end(s, 9 + kl) == 9 + kl);
            assert(sp_char(s, 9 + kl, ',') == Some(10 + kl));
            assert(sp_ws_end(s, 11 + kl) == 11 + kl);
            assert(sp_ws_end(s, 10 + kl) == 11 + kl);
            assert(sp_char(s, 11 + kl, '"') == Some(12 + kl));
            assert(forall|m: int| 12 + kl <= m < 12 + kl + vl ==> s[m] != '"');
            lemma_scan_quote_finds(s, 12 + kl, 12 + kl + vl);
            assert(s.subrange(12 + kl, 12 + kl + vl) =~= value);
            assert(sp_quoted(s, 11 + kl) == Some((13 + kl + vl, value)));
            assert(sp_ws_end(s, 13 + kl + vl) == 13 + kl + vl);
            assert(sp_char(s, 13 + kl + vl, ')') == Some(14 + kl + vl));
            assert(sp_key_val(s, 6) == Some((14 + kl + vl, (key, value))));
            assert(sp_ws_end(s, 14 + kl + vl) == 14 + kl + vl);
            assert(sp_char(s, 14 + kl + vl, '>') == Some(15 + kl + vl));
            assert(sp_add(s, 0) == Some((15 + kl + vl, q)));
        },
    }
}



/// The one-line wire response to a request: for a GET hit the stored
/// value, otherwise (a miss, or the acknowledgement of an ADD) a single
/// NUL byte, distinguishable from every legal value — each
/// newline-terminated.
pub open spec fn spec_response_line(v: Option<Seq<char>>) -> Seq<char> {
    match v {
        Some(s) => s + seq!['\n'],
        None => seq!['\0', '\n'],
    }
}

/// Render the response line for a GET result; `None` doubles as the ADD
/// acknowledgement.
pub fn response_line(v: Option<String>) -> (r: String)
    ensures
        r@ == spec_response_line(
            match v {
                Some(s) => Some(s@),
                None => None,
            },
        ),
{
    match v {
        Some(s) => {
            let ghost s0 = s@;
            let mut out = s;
            out.append("\n");
            proof {
                reveal_strlit("\n");
                assert(out@ =~= s0 + seq!['\n']);
            }
            out
        },
        None => {
            let out = String::from_str("\0\n");
            proof {
                reveal_strlit("\0\n");
                assert(out@ =~= seq!['\0', '\n']);
            }
            out
        },
    }
}

/// Whether a received response line (its terminator already stripped) is
/// the miss sentinel: exactly one NUL character.
pub fn is_miss_line(line: &str) -> (r: bool)
    ensures
        r == (line@ == seq!['\0']),
{
    let n = line.unicode_len();
    if n == 1 {
        let c = line.get_char(0);
        proof {
            if c == '\0' {
                assert(line@ =~= seq!['\0']);
            }
        }
        c == '\0'
    } else {
        false
    }
}

} // verus!
