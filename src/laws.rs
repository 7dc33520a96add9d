use vstd::prelude::*;

use crate::model::{digit_char, entries_insert, nat_text, render, render_items, JsonValue};
use crate::parser::{Expected,
    digit_value, digits_len, digits_value, document, elements_at, has_word, is_digit, is_ws,
    lemma_ws_len_bound, members_at, string_at, text_len, value_at, ws_len,
};

verus! {

proof fn lemma_digit_char(d: int)
    requires
        0 <= d < 10,
    ensures
        is_digit(digit_char(d)),
        digit_value(digit_char(d)) == d,
{
    reveal_strlit("0123456789");
    if d == 0 {
        assert(digit_char(d) == '0');
    } else if d == 1 {
        assert(digit_char(d) == '1');
    } else if d == 2 {
        assert(digit_char(d) == '2');
    } else if d == 3 {
        assert(digit_char(d) == '3');
    } else if d == 4 {
        assert(digit_char(d) == '4');
    } else if d == 5 {
        assert(digit_char(d) == '5');
    } else if d == 6 {
        assert(digit_char(d) == '6');
    } else if d == 7 {
        assert(digit_char(d) == '7');
    } else if d == 8 {
        assert(digit_char(d) == '8');
    } else {
        assert(digit_char(d) == '9');
    }
}

/// The value of digits depends only on the characters read.
proof fn lemma_digits_value_shift(s: Seq<char>, r: Seq<char>, p: int, k: nat)
    requires
        forall|j: int| 0 <= j < k ==> s[p + j] == r[j],
    ensures
        digits_value(s, p, k) == digits_value(r, 0, k),
    decreases k,
{
    if k > 0 {
        lemma_digits_value_shift(s, r, p, (k - 1) as nat);
        assert(s[p + (k - 1)] == r[k - 1]);
    }
}

/// A run of `m` characters other than `"` at `p`, followed by a `"`, is `m`
/// long.
proof fn lemma_text_len_run(s: Seq<char>, p: int, m: nat)
    requires
        0 <= p,
        p + m < s.len(),
        forall|j: int| p <= j < p + m ==> s[j] != '"',
        s[p + m] == '"',
    ensures
        text_len(s, p) == m,
    decreases m,
{
    if m > 0 {
        lemma_text_len_run(s, p + 1, (m - 1) as nat);
    }
}

/// A run of `m` digits at `p` that ends at the end of `s` or before a
/// non-digit is `m` long.
proof fn lemma_digits_len_run(s: Seq<char>, p: int, m: nat)
    requires
        0 <= p,
        p + m <= s.len(),
        forall|j: int| p <= j < p + m ==> is_digit(s[j]),
        p + m == s.len() || !is_digit(s[p + m]),
    ensures
        digits_len(s, p) == m,
    decreases m,
{
    if m > 0 {
        lemma_digits_len_run(s, p + 1, (m - 1) as nat);
    }
}

/// The decimal text of `n` is a nonempty run of digits whose value is `n`.
proof fn lemma_nat_text(n: nat)
    ensures
        nat_text(n).len() >= 1,
        forall|k: int| 0 <= k < nat_text(n).len() ==> is_digit(#[trigger] nat_text(n)[k]),
        digits_value(nat_text(n), 0, nat_text(n).len()) == n,
    decreases n,
{
    if n < 10 {
        lemma_digit_char(n as int);
        let t = nat_text(n);
        assert(digits_value(t, 0, 0) == 0);
        assert(digits_value(t, 0, 1) == 10 * digits_value(t, 0, 0) + digit_value(t[0]));
    } else {
        lemma_nat_text(n / 10);
        lemma_digit_char((n % 10) as int);
        let t0 = nat_text(n / 10);
        let t = nat_text(n);
        assert(t == t0.push(digit_char((n % 10) as int)));
        lemma_digits_value_shift(t, t0, 0, t0.len());
        assert(digits_value(t, 0, t.len()) == 10 * digits_value(t, 0, t0.len()) + digit_value(
            t[t0.len() as int],
        ));
        assert(10 * (n / 10) + n % 10 == n);
        assert forall|k: int| 0 <= k < t.len() implies is_digit(#[trigger] t[k]) by {
            if k < t0.len() {
                assert(t[k] == t0[k]);
            }
        }
    }
}

/// The elements of an array parse to an array.
proof fn lemma_elements_array(s: Seq<char>, i: int, acc: Seq<JsonValue>)
    ensures
        elements_at(s, i, acc) is Ok ==> elements_at(s, i, acc)->Ok_0.0 is Array,
    decreases s.len() - i,
{
    if let Ok((v, n)) = value_at(s, i) {
        let k = i + n + ws_len(s, i + n);
        if k < s.len() && s[k] == ',' {
            lemma_ws_len_bound(s, k + 1);
            lemma_elements_array(s, k + 1 + ws_len(s, k + 1), acc.push(v));
        }
    }
}

/// The members of an object parse to an object.
proof fn lemma_members_object(s: Seq<char>, i: int, acc: Seq<(Seq<char>, JsonValue)>)
    ensures
        members_at(s, i, acc) is Ok ==> members_at(s, i, acc)->Ok_0.0 is Object,
    decreases s.len() - i,
{
    if 0 <= i < s.len() && s[i] == '"' {
        if let Ok((key, n)) = string_at(s, i) {
            let c = i + n + ws_len(s, i + n);
            if c < s.len() && s[c] == ':' {
                let p = c + 1 + ws_len(s, c + 1);
                if let Ok((v, m)) = value_at(s, p) {
                    let k = p + m + ws_len(s, p + m);
                    if k < s.len() && s[k] == ',' {
                        lemma_ws_len_bound(s, k + 1);
                        lemma_members_object(
                            s,
                            k + 1 + ws_len(s, k + 1),
                            entries_insert(acc, key, v),
                        );
                    }
                }
            }
        }
    }
}

/// A scalar whose text parses back to it: a nonnegative integer, a boolean,
/// or a string with no `"` that does not end in a backslash.
pub open spec fn plain_scalar(v: JsonValue) -> bool {
    match v {
        JsonValue::Number(n) => 0 <= n <= i64::MAX,
        JsonValue::Boolean(_) => true,
        JsonValue::Text(t) => (forall|j: int| 0 <= j < t.len() ==> t[j] != '"') && (t.len() > 0
            ==> t.last() != '\\'),
        _ => false,
    }
}

/// The text of a plain scalar, standing at `p` and followed by `,` or `]`,
/// parses to that scalar.
proof fn lemma_scalar_at(s: Seq<char>, p: int, v: JsonValue)
    requires
        plain_scalar(v),
        0 <= p,
        p + render(v).len() < s.len(),
        forall|j: int| 0 <= j < render(v).len() ==> s[p + j] == #[trigger] render(v)[j],
        s[p + render(v).len()] == ',' || s[p + render(v).len()] == ']',
    ensures
        value_at(s, p) == Ok::<(JsonValue, nat), (int, Expected)>((v, render(v).len())),
        render(v).len() >= 1,
        !is_ws(s[p]),
        s[p] == '"' || s[p] == 't' || s[p] == 'f' || is_digit(s[p]),
{
    let r = render(v);
    reveal_strlit("true");
    reveal_strlit("false");
    match v {
        JsonValue::Number(n) => {
            lemma_nat_text(n as nat);
            assert(r == nat_text(n as nat));
            assert(s[p] == r[0]);
            assert(!has_word(s, p, "true"@)) by {
                assert(s[p + 0] != "true"@[0]);
            }
            assert(!has_word(s, p, "false"@)) by {
                assert(s[p + 0] != "false"@[0]);
            }
            assert forall|j: int| p <= j < p + r.len() implies is_digit(s[j]) by {
                assert(s[p + (j - p)] == r[j - p]);
            }
            lemma_digits_len_run(s, p, r.len());
            lemma_digits_value_shift(s, r, p, r.len());
        },
        JsonValue::Boolean(b) => {
            assert(s[p] == r[0]);
            if b {
                assert(r == "true"@);
                assert(has_word(s, p, "true"@));
            } else {
                assert(r == "false"@);
                assert(!has_word(s, p, "true"@)) by {
                    assert(s[p + 0] != "true"@[0]);
                }
                assert(has_word(s, p, "false"@));
            }
        },
        JsonValue::Text(t) => {
            assert(r == seq!['"'] + t + seq!['"']);
            assert(s[p] == r[0]);
            assert(!has_word(s, p, "true"@)) by {
                assert(s[p + 0] != "true"@[0]);
            }
            assert(!has_word(s, p, "false"@)) by {
                assert(s[p + 0] != "false"@[0]);
            }
            assert forall|j: int| p + 1 <= j < p + 1 + t.len() implies s[j] != '"' by {
                assert(s[p + (j - p)] == r[j - p]);
                assert(r[j - p] == t[j - p - 1]);
            }
            assert(s[p + (t.len() + 1)] == r[t.len() + 1int]);
            lemma_text_len_run(s, p + 1, t.len());
            let j = p + 1 + t.len();
            if t.len() > 0 {
                assert(s[p + (j - 1 - p)] == r[j - 1 - p]);
            }
            assert(s.subrange(p + 1, j) =~= t) by {
                assert forall|m: int| 0 <= m < t.len() implies s.subrange(p + 1, j)[m] == t[m] by {
                    assert(s[p + (m + 1)] == r[m + 1]);
                }
            }
        },
        _ => {},
    }
}

/// The text of the first `k` elements begins the text of the first `m`.
proof fn lemma_render_items_prefix(items: Seq<JsonValue>, k: int, m: int)
    requires
        1 <= k <= m <= items.len(),
    ensures
        render_items(items, k).len() <= render_items(items, m).len(),
        forall|j: int|
            0 <= j < render_items(items, k).len() ==> render_items(items, m)[j]
                == render_items(items, k)[j],
    decreases m - k,
{
    if k < m {
        lemma_render_items_prefix(items, k, m - 1);
        reveal_strlit(", ");
        assert(render_items(items, m) == render_items(items, m - 1) + ", "@ + render(
            items[m - 1],
        ));
    }
}

/// Where the text of element `k` starts in the text of the array.
spec fn item_pos(items: Seq<JsonValue>, k: int) -> int {
    if k == 0 {
        1
    } else {
        render_items(items, k).len() + 3int
    }
}

/// How the text of an array of scalars is laid out around element `k`.
proof fn lemma_layout(items: Seq<JsonValue>, k: int)
    requires
        0 <= k < items.len(),
    ensures
        ({
            let s = render(JsonValue::Array(items));
            let p = item_pos(items, k);
            let r = render(items[k]);
            &&& p + r.len() < s.len()
            &&& forall|j: int| 0 <= j < r.len() ==> s[p + j] == #[trigger] r[j]
            &&& k + 1 < items.len() ==> s[p + r.len()] == ',' && s[p + r.len() + 1] == ' '
                && item_pos(items, k + 1) == p + r.len() + 2
            &&& k + 1 == items.len() ==> s[p + r.len()] == ']' && p + r.len() + 1 == s.len()
        }),
{
    reveal_strlit(", ");
    let n = items.len() as int;
    let big = render_items(items, n);
    let s = render(JsonValue::Array(items));
    assert(s == seq!['['] + big + seq![']']);
    let p = item_pos(items, k);
    let r = render(items[k]);
    let q = render_items(items, k + 1);
    if k == 0 {
        assert(q == r);
    } else {
        assert(q == render_items(items, k) + ", "@ + r);
    }
    assert(q.len() == p - 1 + r.len());
    lemma_render_items_prefix(items, k + 1, n);
    assert forall|j: int| 0 <= j < r.len() implies s[p + j] == #[trigger] r[j] by {
        assert(q[p - 1 + j] == r[j]);
        assert(big[p - 1 + j] == q[p - 1 + j]);
    }
    if k + 1 < n {
        let q2 = render_items(items, k + 2);
        assert(q2 == q + ", "@ + render(items[k + 1]));
        lemma_render_items_prefix(items, k + 2, n);
        assert(big[q.len() as int] == q2[q.len() as int]);
        assert(big[q.len() + 1int] == q2[q.len() + 1int]);
    }
}

/// The elements of the text of an array of plain scalars, from element `k`
/// on, parse to the array.
proof fn lemma_elements_round_trip(items: Seq<JsonValue>, k: int)
    requires
        forall|i: int| 0 <= i < items.len() ==> plain_scalar(#[trigger] items[i]),
        0 <= k < items.len(),
    ensures
        elements_at(render(JsonValue::Array(items)), item_pos(items, k), items.subrange(0, k))
            == Ok::<(JsonValue, nat), (int, Expected)>(
            (
                JsonValue::Array(items),
                (render(JsonValue::Array(items)).len() - item_pos(items, k)) as nat,
            ),
        ),
    decreases items.len() - k,
{
    let s = render(JsonValue::Array(items));
    let p = item_pos(items, k);
    let r = render(items[k]);
    lemma_layout(items, k);
    lemma_scalar_at(s, p, items[k]);
    let e = p + r.len();
    assert(ws_len(s, e) == 0);
    assert(items.subrange(0, k).push(items[k]) =~= items.subrange(0, k + 1));
    if k + 1 < items.len() {
        lemma_layout(items, k + 1);
        lemma_scalar_at(s, item_pos(items, k + 1), items[k + 1]);
        assert(ws_len(s, e + 2) == 0);
        assert(ws_len(s, e + 1) == 1);
        lemma_elements_round_trip(items, k + 1);
    } else {
        assert(items.subrange(0, k + 1) =~= items);
    }
}

/// Rendering an array of plain scalars and parsing the text gives the array
/// back.
pub proof fn lemma_scalar_array_round_trip(items: Seq<JsonValue>)
    requires
        forall|i: int| 0 <= i < items.len() ==> plain_scalar(#[trigger] items[i]),
    ensures
        document(render(JsonValue::Array(items))) == Ok::<JsonValue, (int, Expected)>(
            JsonValue::Array(items),
        ),
{
    let s = render(JsonValue::Array(items));
    assert(s == seq!['['] + render_items(items, items.len() as int) + seq![']']);
    assert(ws_len(s, 0) == 0);
    if items.len() == 0 {
        assert(s =~= seq!['[', ']']);
        assert(ws_len(s, 1) == 0);
        assert(ws_len(s, 2) == 0);
        assert(value_at(s, 0) == Ok::<(JsonValue, nat), (int, Expected)>(
            (JsonValue::Array(items), 2),
        )) by {
            assert(items =~= Seq::<JsonValue>::empty());
        }
    } else {
        lemma_layout(items, 0);
        lemma_scalar_at(s, 1, items[0]);
        assert(ws_len(s, 1) == 0);
        assert(s[1] != ']');
        assert(items.subrange(0, 0) =~= Seq::<JsonValue>::empty());
        lemma_elements_round_trip(items, 0);
        assert(value_at(s, 0) == Ok::<(JsonValue, nat), (int, Expected)>(
            (JsonValue::Array(items), s.len()),
        ));
        assert(ws_len(s, s.len() as int) == 0);
    }
}

/// Rendering a nonnegative integer and parsing the text gives the integer back.
/// (Negative integers render with a `-`, which the number grammar does not
/// accept.)
pub proof fn lemma_integer_round_trip(n: int)
    requires
        0 <= n <= i64::MAX,
    ensures
        document(render(JsonValue::Number(n))) == Ok::<JsonValue, (int, Expected)>(
            JsonValue::Number(n),
        ),
{
    let t = render(JsonValue::Number(n));
    assert(t == nat_text(n as nat));
    lemma_nat_text(n as nat);
    assert(is_digit(t[0]));
    assert(ws_len(t, 0) == 0);
    reveal_strlit("true");
    reveal_strlit("false");
    assert(t[0] != "true"@[0]);
    assert(t[0] != "false"@[0]);
    lemma_digits_len_run(t, 0, t.len());
    assert(value_at(t, 0) == Ok::<(JsonValue, nat), (int, Expected)>((JsonValue::Number(n), t.len())));
    assert(ws_len(t, t.len() as int) == 0);
}

/// `true` and `false` parse to the two booleans, and a document that parses to
/// a boolean is one of those two words with whitespace around it.
pub proof fn lemma_boolean_literals(s: Seq<char>, b: bool)
    ensures
        document("true"@) == Ok::<JsonValue, (int, Expected)>(JsonValue::Boolean(true)),
        document("false"@) == Ok::<JsonValue, (int, Expected)>(JsonValue::Boolean(false)),
        document(s) == Ok::<JsonValue, (int, Expected)>(JsonValue::Boolean(b)) ==> has_word(
            s,
            ws_len(s, 0) as int,
            if b {
                "true"@
            } else {
                "false"@
            },
        ),
{
    reveal_strlit("true");
    reveal_strlit("false");
    let i = ws_len(s, 0) as int;
    lemma_elements_array(s, i + 1 + ws_len(s, i + 1), Seq::empty());
    lemma_members_object(s, i + 1 + ws_len(s, i + 1), Seq::empty());
    let t = "true"@;
    assert(ws_len(t, 0) == 0);
    assert(has_word(t, 0, "true"@));
    assert(ws_len(t, 4) == 0);
    let f = "false"@;
    assert(ws_len(f, 0) == 0);
    assert(!has_word(f, 0, "true"@));
    assert(has_word(f, 0, "false"@));
    assert(ws_len(f, 5) == 0);
}

} // verus!
