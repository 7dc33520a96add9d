use vstd::prelude::*;
use vstd::string::*;

use crate::model::{entries_insert, keys_unique, views, Json, JsonArray, JsonObject, JsonValue, Container, Primitive};

verus! {

/// What the parser expected where it stopped.
#[derive(Debug, Clone, Copy, PartialEq, Eq)]
pub enum Expected {
    /// The start of a value: `[`, `{`, `true`, `false`, a digit or `"`.
    Value,
    /// A quoted key of an object member.
    Key,
    /// The `:` between a key and its value.
    Colon,
    /// A `,` or the `]` that closes an array.
    CommaOrCloseBracket,
    /// A `,` or the `}` that closes an object.
    CommaOrCloseBrace,
    /// The `"` that closes a string, not preceded by a backslash.
    ClosingQuote,
    /// A number literal whose value fits in a signed 64-bit integer.
    NumberInRange,
    /// The end of the input after the document's value.
    EndOfInput,
}

/// A syntax error: where parsing stopped (as a character offset and as a
/// 1-based line and column) and what was expected there.
#[derive(Debug, Clone, Copy, PartialEq, Eq)]
pub struct SyntaxError {
    pub offset: usize,
    pub line: usize,
    pub column: usize,
    pub expected: Expected,
}

pub open spec fn is_ws(c: char) -> bool {
    c == ' ' || c == '\n'
}

pub open spec fn is_digit(c: char) -> bool {
    '0' <= c <= '9'
}

pub open spec fn digit_value(c: char) -> int {
    (c as u32) as int - ('0' as u32) as int
}

/// The number of whitespace characters that start at `i`.
pub open spec fn ws_len(s: Seq<char>, i: int) -> nat
    decreases s.len() - i,
{
    if 0 <= i < s.len() && is_ws(s[i]) {
        1 + ws_len(s, i + 1)
    } else {
        0
    }
}

/// The number of decimal digits that start at `i`.
pub open spec fn digits_len(s: Seq<char>, i: int) -> nat
    decreases s.len() - i,
{
    if 0 <= i < s.len() && is_digit(s[i]) {
        1 + digits_len(s, i + 1)
    } else {
        0
    }
}

/// The number of characters other than `"` that start at `i`.
pub open spec fn text_len(s: Seq<char>, i: int) -> nat
    decreases s.len() - i,
{
    if 0 <= i < s.len() && s[i] != '"' {
        1 + text_len(s, i + 1)
    } else {
        0
    }
}

/// The decimal value of the `n` digits at `i`.
pub open spec fn digits_value(s: Seq<char>, i: int, n: nat) -> int
    decreases n,
{
    if n == 0 {
        0
    } else {
        10 * digits_value(s, i, (n - 1) as nat) + digit_value(s[i + n - 1])
    }
}

/// The characters of `w` stand in `s` at `i`.
pub open spec fn has_word(s: Seq<char>, i: int, w: Seq<char>) -> bool {
    0 <= i && i + w.len() <= s.len() && forall|k: int| 0 <= k < w.len() ==> s[i + k] == w[k]
}

/// A string literal at `i` (where `s[i]` is `"`): its text and how many
/// characters it takes. There are no escapes, and a closing quote right after a
/// backslash is refused.
pub open spec fn string_at(s: Seq<char>, i: int) -> Result<(Seq<char>, nat), (int, Expected)> {
    let j = i + 1 + text_len(s, i + 1);
    if j >= s.len() {
        Err((j, Expected::ClosingQuote))
    } else if j > i + 1 && s[j - 1] == '\\' {
        Err((j, Expected::ClosingQuote))
    } else {
        Ok((s.subrange(i + 1, j), (j + 1 - i) as nat))
    }
}

/// A run of whitespace ends within the input.
pub proof fn lemma_ws_len_bound(s: Seq<char>, i: int)
    requires
        i <= s.len(),
    ensures
        i + ws_len(s, i) <= s.len(),
    decreases s.len() - i,
{
    if i < s.len() && is_ws(s[i]) {
        lemma_ws_len_bound(s, i + 1);
    }
}

/// Every skip of whitespace after a character of `s` stays within `s`.
proof fn lemma_ws_after_bound(s: Seq<char>)
    ensures
        forall|k: int| k < s.len() ==> k + 1 + #[trigger] ws_len(s, k + 1) <= s.len(),
{
    assert forall|k: int| k < s.len() implies k + 1 + #[trigger] ws_len(s, k + 1) <= s.len() by {
        lemma_ws_len_bound(s, k + 1);
    }
}

#[via_fn]
proof fn value_at_decreases(s: Seq<char>, i: int) {
    lemma_ws_after_bound(s);
}

#[via_fn]
proof fn elements_at_decreases(s: Seq<char>, i: int, acc: Seq<JsonValue>) {
    lemma_ws_after_bound(s);
}

#[via_fn]
proof fn members_at_decreases(s: Seq<char>, i: int, acc: Seq<(Seq<char>, JsonValue)>) {
    lemma_ws_after_bound(s);
}

/// The value that starts at `i`, and how many characters it takes; or where
/// and why it fails.
pub open spec fn value_at(s: Seq<char>, i: int) -> Result<(JsonValue, nat), (int, Expected)>
    decreases s.len() - i, 0int via value_at_decreases
{
    if i < 0 || i >= s.len() {
        Err((i, Expected::Value))
    } else if s[i] == '[' {
        let p = i + 1 + ws_len(s, i + 1);
        if p < s.len() && s[p] == ']' {
            Ok((JsonValue::Array(Seq::empty()), (p + 1 - i) as nat))
        } else {
            match elements_at(s, p, Seq::empty()) {
                Ok((v, n)) => Ok((v, (p - i + n) as nat)),
                Err(e) => Err(e),
            }
        }
    } else if s[i] == '{' {
        let p = i + 1 + ws_len(s, i + 1);
        if p < s.len() && s[p] == '}' {
            Ok((JsonValue::Object(Seq::empty()), (p + 1 - i) as nat))
        } else {
            match members_at(s, p, Seq::empty()) {
                Ok((v, n)) => Ok((v, (p - i + n) as nat)),
                Err(e) => Err(e),
            }
        }
    } else if has_word(s, i, "true"@) {
        Ok((JsonValue::Boolean(true), 4))
    } else if has_word(s, i, "false"@) {
        Ok((JsonValue::Boolean(false), 5))
    } else if is_digit(s[i]) {
        let n = digits_len(s, i);
        let v = digits_value(s, i, n);
        if v <= i64::MAX {
            Ok((JsonValue::Number(v), n))
        } else {
            Err((i, Expected::NumberInRange))
        }
    } else if s[i] == '"' {
        match string_at(s, i) {
            Ok((t, n)) => Ok((JsonValue::Text(t), n)),
            Err(e) => Err(e),
        }
    } else {
        Err((i, Expected::Value))
    }
}

/// The elements of an array from its element at `i` to its closing `]`,
/// appended to `acc`.
pub open spec fn elements_at(s: Seq<char>, i: int, acc: Seq<JsonValue>) -> Result<
    (JsonValue, nat),
    (int, Expected),
>
    decreases s.len() - i, 1int via elements_at_decreases
{
    match value_at(s, i) {
        Err(e) => Err(e),
        Ok((v, n)) => {
            let k = i + n + ws_len(s, i + n);
            if k < s.len() && s[k] == ',' {
                let p = k + 1 + ws_len(s, k + 1);
                match elements_at(s, p, acc.push(v)) {
                    Ok((a, m)) => Ok((a, (p - i + m) as nat)),
                    Err(e) => Err(e),
                }
            } else if k < s.len() && s[k] == ']' {
                Ok((JsonValue::Array(acc.push(v)), (k + 1 - i) as nat))
            } else {
                Err((k, Expected::CommaOrCloseBracket))
            }
        },
    }
}

/// The members of an object from its member at `i` to its closing `}`,
/// inserted in order into `acc`.
pub open spec fn members_at(s: Seq<char>, i: int, acc: Seq<(Seq<char>, JsonValue)>) -> Result<
    (JsonValue, nat),
    (int, Expected),
>
    decreases s.len() - i, 1int via members_at_decreases
{
    if !(0 <= i < s.len() && s[i] == '"') {
        Err((i, Expected::Key))
    } else {
        match string_at(s, i) {
            Err(e) => Err(e),
            Ok((key, n)) => {
                let c = i + n + ws_len(s, i + n);
                if !(c < s.len() && s[c] == ':') {
                    Err((c, Expected::Colon))
                } else {
                    let p = c + 1 + ws_len(s, c + 1);
                    match value_at(s, p) {
                        Err(e) => Err(e),
                        Ok((v, m)) => {
                            let acc2 = entries_insert(acc, key, v);
                            let k = p + m + ws_len(s, p + m);
                            if k < s.len() && s[k] == ',' {
                                let q = k + 1 + ws_len(s, k + 1);
                                match members_at(s, q, acc2) {
                                    Ok((o, r)) => Ok((o, (q - i + r) as nat)),
                                    Err(e) => Err(e),
                                }
                            } else if k < s.len() && s[k] == '}' {
                                Ok((JsonValue::Object(acc2), (k + 1 - i) as nat))
                            } else {
                                Err((k, Expected::CommaOrCloseBrace))
                            }
                        },
                    }
                }
            },
        }
    }
}

/// A whole document: one value with optional whitespace around it and nothing
/// else.
pub open spec fn document(s: Seq<char>) -> Result<JsonValue, (int, Expected)> {
    let i = ws_len(s, 0) as int;
    match value_at(s, i) {
        Err(e) => Err(e),
        Ok((v, n)) => {
            let k = i + n + ws_len(s, i + n);
            if k == s.len() {
                Ok(v)
            } else {
                Err((k, Expected::EndOfInput))
            }
        },
    }
}

/// The number of line breaks before position `p`.
pub open spec fn newlines_before(s: Seq<char>, p: int) -> nat
    decreases p,
{
    if p <= 0 {
        0
    } else {
        newlines_before(s, p - 1) + if s[p - 1] == '\n' {
            1nat
        } else {
            0nat
        }
    }
}

/// The position where the line that holds position `p` starts.
pub open spec fn line_start(s: Seq<char>, p: int) -> int
    decreases p,
{
    if p <= 0 {
        0
    } else if s[p - 1] == '\n' {
        p
    } else {
        line_start(s, p - 1)
    }
}

/// The 1-based line of position `p`.
pub open spec fn line_of(s: Seq<char>, p: int) -> int {
    newlines_before(s, p) + 1int
}

/// The 1-based column of position `p`.
pub open spec fn column_of(s: Seq<char>, p: int) -> int {
    p - line_start(s, p) + 1
}

/// `e` reports a failure at position `p` of `s`, where `x` was expected.
pub open spec fn reports(e: SyntaxError, s: Seq<char>, p: int, x: Expected) -> bool {
    &&& e.offset == p
    &&& e.line == line_of(s, p)
    &&& e.column == column_of(s, p)
    &&& e.expected == x
}

/// An executable parse result agrees with the grammar's result at `i`.
spec fn agrees(
    r: Result<(Json, usize), (usize, Expected)>,
    g: Result<(JsonValue, nat), (int, Expected)>,
    i: int,
) -> bool {
    match g {
        Ok((v, n)) => r is Ok && r->Ok_0.0@ == v && r->Ok_0.1 == i + n,
        Err((p, x)) => r is Err && r->Err_0.0 == p && r->Err_0.1 == x,
    }
}

/// Every position in an executable parse result lies within the input.
spec fn in_bounds(r: Result<(Json, usize), (usize, Expected)>, n: int) -> bool {
    match r {
        Ok((_, e)) => e <= n,
        Err((p, _)) => p <= n,
    }
}

/// The characters of `src`, in order.
fn chars_of(src: &str) -> (r: Vec<char>)
    ensures
        r@ == src@,
{
    let n = src.unicode_len();
    let mut r: Vec<char> = Vec::new();
    let mut i: usize = 0;
    while i < n
        invariant
            n == src@.len(),
            i <= n,
            r@ == src@.subrange(0, i as int),
        decreases n - i,
    {
        r.push(src.get_char(i));
        i += 1;
        proof {
            assert(r@ =~= src@.subrange(0, i as int));
        }
    }
    proof {
        assert(r@ =~= src@);
    }
    r
}

fn skip_ws(s: &Vec<char>, i: usize) -> (j: usize)
    requires
        i <= s.len(),
    ensures
        j == i + ws_len(s@, i as int),
        j <= s.len(),
{
    let mut j: usize = i;
    while j < s.len() && (s[j] == ' ' || s[j] == '\n')
        invariant
            i <= j <= s.len(),
            ws_len(s@, i as int) == (j - i) + ws_len(s@, j as int),
        decreases s.len() - j,
    {
        j += 1;
    }
    j
}

fn word_at(s: &Vec<char>, i: usize, w: &str) -> (r: bool)
    requires
        i <= s.len(),
    ensures
        r == has_word(s@, i as int, w@),
{
    let n = w.unicode_len();
    if n > s.len() - i {
        return false;
    }
    let mut k: usize = 0;
    while k < n
        invariant
            n == w@.len(),
            i + n <= s.len(),
            k <= n,
            forall|m: int| 0 <= m < k ==> s@[i + m] == w@[m],
        decreases n - k,
    {
        if s[i + k] != w.get_char(k) {
            return false;
        }
        k += 1;
    }
    true
}

/// The number literal at `i` and where it ends, or `None` where its value
/// exceeds `i64::MAX`.
fn parse_number(s: &Vec<char>, i: usize) -> (r: Option<(i64, usize)>)
    requires
        i < s.len(),
        is_digit(s@[i as int]),
    ensures
        ({
            let n = digits_len(s@, i as int);
            let v = digits_value(s@, i as int, n);
            match r {
                Some((x, e)) => v <= i64::MAX && x == v && e == i + n && e <= s.len(),
                None => v > i64::MAX,
            }
        }),
{
    let mut j: usize = i;
    let mut v: i64 = 0;
    let mut over = false;
    while j < s.len() && '0' <= s[j] && s[j] <= '9'
        invariant
            i <= j <= s.len(),
            digits_len(s@, i as int) == (j - i) + digits_len(s@, j as int),
            v >= 0,
            !over ==> v == digits_value(s@, i as int, (j - i) as nat),
            over ==> digits_value(s@, i as int, (j - i) as nat) > i64::MAX,
        decreases s.len() - j,
    {
        let d = (s[j] as u32 - '0' as u32) as i64;
        proof {
            assert(digits_value(s@, i as int, (j + 1 - i) as nat) == 10 * digits_value(
                s@,
                i as int,
                (j - i) as nat,
            ) + digit_value(s@[j as int]));
        }
        if !over {
            if v > 922337203685477580 || (v == 922337203685477580 && d > 7) {
                over = true;
            } else {
                v = v * 10 + d;
            }
        }
        j += 1;
    }
    if over {
        None
    } else {
        Some((v, j))
    }
}

fn parse_string(src: &str, s: &Vec<char>, i: usize) -> (r: Result<(String, usize), (usize, Expected)>)
    requires
        s@ == src@,
        i < s.len(),
        s@[i as int] == '"',
    ensures
        match string_at(s@, i as int) {
            Ok((t, n)) => r is Ok && r->Ok_0.0@ == t && r->Ok_0.1 == i + n,
            Err((p, x)) => r is Err && r->Err_0.0 == p && r->Err_0.1 == x,
        },
        match r {
            Ok((_, e)) => e <= s.len(),
            Err((p, _)) => p <= s.len(),
        },
{
    let mut j: usize = i + 1;
    while j < s.len() && s[j] != '"'
        invariant
            i + 1 <= j <= s.len(),
            text_len(s@, i + 1) == (j - i - 1) + text_len(s@, j as int),
        decreases s.len() - j,
    {
        j += 1;
    }
    if j >= s.len() {
        return Err((j, Expected::ClosingQuote));
    }
    if j > i + 1 && s[j - 1] == '\\' {
        return Err((j, Expected::ClosingQuote));
    }
    let t = String::from_str(src.substring_char(i + 1, j));
    Ok((t, j + 1))
}

fn parse_value(src: &str, s: &Vec<char>, i: usize) -> (r: Result<(Json, usize), (usize, Expected)>)
    requires
        s@ == src@,
        i <= s.len(),
    ensures
        agrees(r, value_at(s@, i as int), i as int),
        in_bounds(r, s.len() as int),
    decreases s.len() - i, 0int,
{
    if i >= s.len() {
        return Err((i, Expected::Value));
    }
    let c = s[i];
    if c == '[' {
        let p = skip_ws(s, i + 1);
        if p < s.len() && s[p] == ']' {
            let a = JsonArray::new(Vec::new());
            proof {
                assert(a@ =~= Seq::empty());
            }
            return Ok((Json::Container(Container::JsonArray(a)), p + 1));
        }
        let acc: Vec<Json> = Vec::new();
        proof {
            assert(views(acc@) =~= Seq::empty());
        }
        parse_elements(src, s, p, acc)
    } else if c == '{' {
        let p = skip_ws(s, i + 1);
        let acc = JsonObject::from_vec(Vec::new());
        proof {
            assert(acc@ =~= Seq::empty());
        }
        if p < s.len() && s[p] == '}' {
            return Ok((Json::Container(Container::JsonObject(acc)), p + 1));
        }
        parse_members(src, s, p, acc)
    } else if word_at(s, i, "true") {
        proof {
            reveal_strlit("true");
        }
        Ok((Json::Primitive(Primitive::Boolean(true)), i + 4))
    } else if word_at(s, i, "false") {
        proof {
            reveal_strlit("false");
        }
        Ok((Json::Primitive(Primitive::Boolean(false)), i + 5))
    } else if '0' <= c && c <= '9' {
        match parse_number(s, i) {
            Some((x, e)) => Ok((Json::Primitive(Primitive::Number(x)), e)),
            None => Err((i, Expected::NumberInRange)),
        }
    } else if c == '"' {
        match parse_string(src, s, i) {
            Ok((t, e)) => Ok((Json::Primitive(Primitive::String(t)), e)),
            Err(e) => Err(e),
        }
    } else {
        Err((i, Expected::Value))
    }
}

fn parse_elements(src: &str, s: &Vec<char>, i: usize, acc: Vec<Json>) -> (r: Result<
    (Json, usize),
    (usize, Expected),
>)
    requires
        s@ == src@,
        i <= s.len(),
    ensures
        agrees(r, elements_at(s@, i as int, views(acc@)), i as int),
        in_bounds(r, s.len() as int),
    decreases s.len() - i, 1int,
{
    let (v, e) = match parse_value(src, s, i) {
        Ok(x) => x,
        Err(e) => return Err(e),
    };
    let k = skip_ws(s, e);
    let ghost before = views(acc@);
    let mut acc = acc;
    acc.push(v);
    proof {
        assert(views(acc@) =~= before.push(v@));
    }
    if k < s.len() && s[k] == ',' {
        let p = skip_ws(s, k + 1);
        parse_elements(src, s, p, acc)
    } else if k < s.len() && s[k] == ']' {
        Ok((Json::Container(Container::JsonArray(JsonArray::new(acc))), k + 1))
    } else {
        Err((k, Expected::CommaOrCloseBracket))
    }
}

fn parse_members(src: &str, s: &Vec<char>, i: usize, acc: JsonObject) -> (r: Result<
    (Json, usize),
    (usize, Expected),
>)
    requires
        s@ == src@,
        i <= s.len(),
        keys_unique(acc@),
    ensures
        agrees(r, members_at(s@, i as int, acc@), i as int),
        in_bounds(r, s.len() as int),
    decreases s.len() - i, 1int,
{
    if !(i < s.len() && s[i] == '"') {
        return Err((i, Expected::Key));
    }
    let (key, e) = match parse_string(src, s, i) {
        Ok(x) => x,
        Err(e) => return Err(e),
    };
    let c = skip_ws(s, e);
    if !(c < s.len() && s[c] == ':') {
        return Err((c, Expected::Colon));
    }
    let p = skip_ws(s, c + 1);
    let (v, e2) = match parse_value(src, s, p) {
        Ok(x) => x,
        Err(e) => return Err(e),
    };
    let k = skip_ws(s, e2);
    let mut acc = acc;
    acc.insert((key, v));
    if k < s.len() && s[k] == ',' {
        let q = skip_ws(s, k + 1);
        parse_members(src, s, q, acc)
    } else if k < s.len() && s[k] == '}' {
        Ok((Json::Container(Container::JsonObject(acc)), k + 1))
    } else {
        Err((k, Expected::CommaOrCloseBrace))
    }
}

/// The 1-based line and column of position `p`.
fn position_of(s: &Vec<char>, p: usize) -> (r: (usize, usize))
    requires
        p <= s.len(),
        s.len() < usize::MAX,
    ensures
        r.0 == line_of(s@, p as int),
        r.1 == column_of(s@, p as int),
{
    let mut line: usize = 1;
    let mut start: usize = 0;
    let mut i: usize = 0;
    while i < p
        invariant
            i <= p <= s.len() < usize::MAX,
            line == newlines_before(s@, i as int) + 1,
            start == line_start(s@, i as int),
            start <= i,
            line <= i + 1,
        decreases p - i,
    {
        if s[i] == '\n' {
            line += 1;
            start = i + 1;
        }
        i += 1;
    }
    (line, p - start + 1)
}

/// Parses a whole document: one value, with optional spaces and line breaks
/// around it and nothing else.
pub fn parse_json_str(source: &str) -> (r: Result<Json, SyntaxError>)
    requires
        source@.len() < usize::MAX,
    ensures
        r is Ok <==> document(source@) is Ok,
        r is Ok ==> r->Ok_0@ == document(source@)->Ok_0,
        r is Err ==> reports(
            r->Err_0,
            source@,
            document(source@)->Err_0.0,
            document(source@)->Err_0.1,
        ),
{
    let s = chars_of(source);
    let i = skip_ws(&s, 0);
    let failed = match parse_value(source, &s, i) {
        Ok((v, e)) => {
            let k = skip_ws(&s, e);
            if k == s.len() {
                return Ok(v);
            }
            (k, Expected::EndOfInput)
        },
        Err(f) => f,
    };
    let (line, column) = position_of(&s, failed.0);
    Err(SyntaxError { offset: failed.0, line, column, expected: failed.1 })
}

} // verus!
