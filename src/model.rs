use vstd::prelude::*;
use vstd::string::*;

verus! {

/// The mathematical value of a document: what a `Json` tree denotes.
pub enum JsonValue {
    Number(int),
    Text(Seq<char>),
    Boolean(bool),
    Array(Seq<JsonValue>),
    Object(Seq<(Seq<char>, JsonValue)>),
}

/// A scalar leaf of a document.
#[derive(Debug, PartialEq, Eq)]
pub enum Primitive {
    Number(i64),
    String(String),
    Boolean(bool),
}

/// A mapping from keys to values; each key occurs at most once, and entries
/// keep the order in which their keys were first inserted. Two objects compare
/// equal when they hold the same entries in the same order.
#[derive(Debug, PartialEq, Eq)]
pub struct JsonObject {
    items: Vec<(String, Json)>,
}

/// An ordered sequence of values.
#[derive(Debug, PartialEq, Eq)]
pub struct JsonArray {
    items: Vec<Json>,
}

/// An aggregate node of a document.
#[derive(Debug, PartialEq, Eq)]
pub enum Container {
    JsonObject(JsonObject),
    JsonArray(JsonArray),
}

/// A node of a document tree.
#[derive(Debug, PartialEq, Eq)]
pub enum Json {
    Primitive(Primitive),
    Container(Container),
}

/// The values of a sequence of nodes.
pub open spec fn views(items: Seq<Json>) -> Seq<JsonValue> {
    Seq::new(items.len(), |i: int| items[i]@)
}

/// The values of a sequence of key/node pairs.
pub open spec fn entry_views(items: Seq<(String, Json)>) -> Seq<(Seq<char>, JsonValue)> {
    Seq::new(items.len(), |i: int| (items[i].0@, items[i].1@))
}

/// No key occurs twice among the entries.
pub open spec fn keys_unique(e: Seq<(Seq<char>, JsonValue)>) -> bool {
    forall|i: int, j: int|
        0 <= i < e.len() && 0 <= j < e.len() && i != j ==> #[trigger] e[i].0 != #[trigger] e[j].0
}

pub open spec fn has_key(e: Seq<(Seq<char>, JsonValue)>, k: Seq<char>) -> bool {
    exists|i: int| 0 <= i < e.len() && #[trigger] e[i].0 == k
}

/// Inserting `k` mapped to `v`: an entry with key `k` gets the new value in
/// place; otherwise the entry is appended.
pub open spec fn entries_insert(e: Seq<(Seq<char>, JsonValue)>, k: Seq<char>, v: JsonValue) -> Seq<
    (Seq<char>, JsonValue),
> {
    if has_key(e, k) {
        e.update(choose|i: int| 0 <= i < e.len() && #[trigger] e[i].0 == k, (k, v))
    } else {
        e.push((k, v))
    }
}

/// Inserting each of `es` in order into `acc`, so that the last occurrence of a
/// key wins.
pub open spec fn entries_insert_all(
    acc: Seq<(Seq<char>, JsonValue)>,
    es: Seq<(Seq<char>, JsonValue)>,
) -> Seq<(Seq<char>, JsonValue)>
    decreases es.len(),
{
    if es.len() == 0 {
        acc
    } else {
        entries_insert_all(entries_insert(acc, es[0].0, es[0].1), es.drop_first())
    }
}

/// The decimal digit character of `d`, for `0 <= d < 10`.
pub open spec fn digit_char(d: int) -> char {
    "0123456789"@[d]
}

/// The decimal text of a natural number, without leading zeros.
pub open spec fn nat_text(n: nat) -> Seq<char>
    decreases n,
{
    if n < 10 {
        seq![digit_char(n as int)]
    } else {
        nat_text(n / 10).push(digit_char((n % 10) as int))
    }
}

/// The decimal text of an integer, with a leading `-` when it is negative.
pub open spec fn int_text(n: int) -> Seq<char> {
    if n < 0 {
        seq!['-'] + nat_text((-n) as nat)
    } else {
        nat_text(n as nat)
    }
}

/// The text of a value: integers in decimal, strings between double quotes
/// with no escaping, booleans as `true` / `false`, arrays as `[e0, e1, ...]`,
/// objects as `{ \n` followed by one `  "key": value,\n` line per entry and a
/// closing `}`.
pub open spec fn render(v: JsonValue) -> Seq<char>
    decreases v,
{
    match v {
        JsonValue::Number(n) => int_text(n),
        JsonValue::Text(t) => seq!['"'] + t + seq!['"'],
        JsonValue::Boolean(b) => if b {
            "true"@
        } else {
            "false"@
        },
        JsonValue::Array(items) => seq!['['] + render_items(items, items.len() as int) + seq![']'],
        JsonValue::Object(es) => "{ \n"@ + render_entries(es, es.len() as int) + seq!['}'],
    }
}

/// The first `n` elements rendered and separated by `, `.
pub open spec fn render_items(items: Seq<JsonValue>, n: int) -> Seq<char>
    decreases items, n,
{
    if n <= 0 || n > items.len() {
        Seq::empty()
    } else if n == 1 {
        render(items[0])
    } else {
        render_items(items, n - 1) + ", "@ + render(items[n - 1])
    }
}

/// The line of one object entry.
pub open spec fn entry_line(k: Seq<char>, value_text: Seq<char>) -> Seq<char> {
    "  \""@ + k + "\": "@ + value_text + ",\n"@
}

/// The lines of the first `n` entries.
pub open spec fn render_entries(es: Seq<(Seq<char>, JsonValue)>, n: int) -> Seq<char>
    decreases es, n,
{
    if n <= 0 || n > es.len() {
        Seq::empty()
    } else {
        render_entries(es, n - 1) + entry_line(es[n - 1].0, render(es[n - 1].1))
    }
}

/// Inserting into entries with unique keys keeps them unique.
pub proof fn lemma_insert_keeps_unique(e: Seq<(Seq<char>, JsonValue)>, k: Seq<char>, v: JsonValue)
    requires
        keys_unique(e),
    ensures
        keys_unique(entries_insert(e, k, v)),
        has_key(entries_insert(e, k, v), k),
{
    let r = entries_insert(e, k, v);
    if has_key(e, k) {
        let i = choose|i: int| 0 <= i < e.len() && #[trigger] e[i].0 == k;
        assert(r[i].0 == k);
    } else {
        assert(r[e.len() as int].0 == k);
    }
}

/// The decimal text of `n`.
fn nat_digits(n: u64) -> (r: String)
    ensures
        r@ == nat_text(n as nat),
    decreases n,
{
    proof {
        reveal_strlit("0123456789");
    }
    let d = (n % 10) as usize;
    let digit = "0123456789".substring_char(d, d + 1);
    proof {
        assert(digit@ =~= seq![digit_char(d as int)]);
    }
    if n < 10 {
        String::from_str(digit)
    } else {
        let mut r = nat_digits(n / 10);
        r.append(digit);
        r
    }
}

impl Primitive {
    pub open spec fn view(&self) -> JsonValue {
        match self {
            Primitive::Number(n) => JsonValue::Number(*n as int),
            Primitive::String(s) => JsonValue::Text(s@),
            Primitive::Boolean(b) => JsonValue::Boolean(*b),
        }
    }

    /// The text of this scalar.
    pub fn render(&self) -> (r: String)
        ensures
            r@ == render(self@),
    {
        match self {
            Primitive::Number(n) => {
                if *n < 0 {
                    let m = (0 - (*n as i128)) as u64;
                    let mut r = String::from_str("-");
                    let digits = nat_digits(m);
                    r.append(digits.as_str());
                    proof {
                        reveal_strlit("-");
                        assert(r@ =~= int_text(*n as int));
                    }
                    r
                } else {
                    nat_digits(*n as u64)
                }
            },
            Primitive::String(t) => {
                let mut r = String::from_str("\"");
                r.append(t.as_str());
                r.append("\"");
                proof {
                    reveal_strlit("\"");
                    assert(r@ =~= render(self@));
                }
                r
            },
            Primitive::Boolean(b) => {
                if *b {
                    String::from_str("true")
                } else {
                    String::from_str("false")
                }
            },
        }
    }
}

impl Json {
    pub open spec fn view(&self) -> JsonValue
        decreases self,
    {
        match self {
            Json::Primitive(p) => p.view(),
            Json::Container(c) => c.view(),
        }
    }

    /// The text of this value.
    pub fn render(&self) -> (r: String)
        ensures
            r@ == render(self@),
        decreases self,
    {
        match self {
            Json::Primitive(p) => p.render(),
            Json::Container(c) => c.render(),
        }
    }
}

impl Container {
    pub open spec fn view(&self) -> JsonValue
        decreases self,
    {
        match self {
            Container::JsonArray(a) => JsonValue::Array(a.view()),
            Container::JsonObject(o) => JsonValue::Object(o.view()),
        }
    }

    /// The text of this aggregate.
    pub fn render(&self) -> (r: String)
        ensures
            r@ == render(self@),
        decreases self,
    {
        match self {
            Container::JsonArray(a) => a.render(),
            Container::JsonObject(o) => o.render(),
        }
    }
}

impl JsonArray {
    pub closed spec fn view(&self) -> Seq<JsonValue>
        decreases self,
    {
        Seq::new(
            self.items.len() as nat,
            |i: int|
                if 0 <= i < self.items.len() {
                    self.items[i].view()
                } else {
                    JsonValue::Boolean(false)
                },
        )
    }

    /// The text of this array: `[`, the elements separated by `, `, and `]`.
    pub fn render(&self) -> (r: String)
        ensures
            r@ == render(JsonValue::Array(self@)),
        decreases self,
    {
        proof {
            reveal_strlit("[");
            reveal_strlit(", ");
        }
        let mut r = String::from_str("[");
        let mut i: usize = 0;
        while i < self.items.len()
            invariant
                i <= self.items.len(),
                self@.len() == self.items.len(),
                r@ == seq!['['] + render_items(self@, i as int),
            decreases self.items.len() - i,
        {
            let t = self.items[i].render();
            let ghost prev = r@;
            if i > 0 {
                r.append(", ");
            }
            r.append(t.as_str());
            proof {
                assert(self@[i as int] == self.items[i as int]@);
                assert(r@ =~= seq!['['] + render_items(self@, i + 1));
            }
            i += 1;
        }
        r.append("]");
        proof {
            reveal_strlit("]");
            assert(r@ =~= render(JsonValue::Array(self@)));
        }
        r
    }

    /// An array holding `items` in order.
    pub fn new(items: Vec<Json>) -> (r: JsonArray)
        ensures
            r@ == views(items@),
    {
        JsonArray { items }
    }
}

impl JsonObject {
    /// Builds an object by inserting the pairs in order: where a key occurs
    /// more than once, its last value wins.
    pub fn from_vec(items: Vec<(String, Json)>) -> (r: JsonObject)
        ensures
            r@ == entries_insert_all(Seq::empty(), entry_views(items@)),
            keys_unique(r@),
    {
        let ghost orig = entry_views(items@);
        let mut items = items;
        let mut obj = JsonObject { items: Vec::new() };
        proof {
            assert(obj@ =~= Seq::empty());
        }
        while items.len() > 0
            invariant
                keys_unique(obj@),
                entries_insert_all(obj@, entry_views(items@)) == entries_insert_all(
                    Seq::empty(),
                    orig,
                ),
            decreases items.len(),
        {
            let ghost before = entry_views(items@);
            let item = items.remove(0);
            proof {
                assert(entry_views(items@) =~= before.drop_first());
            }
            obj.insert(item);
        }
        obj
    }

    /// The number of entries.
    pub fn len(&self) -> (n: usize)
        ensures
            n == self@.len(),
    {
        self.items.len()
    }

    /// The value of `key`, if the object has an entry for it.
    pub fn get(&self, key: &str) -> (r: Option<&Json>)
        ensures
            match r {
                Some(v) => exists|i: int| 0 <= i < self@.len() && self@[i] == (key@, v@),
                None => !has_key(self@, key@),
            },
    {
        let k = String::from_str(key);
        let mut i: usize = 0;
        while i < self.items.len()
            invariant
                i <= self.items.len(),
                k@ == key@,
                self@.len() == self.items.len(),
                forall|j: int| 0 <= j < i ==> #[trigger] self@[j].0 != key@,
            decreases self.items.len() - i,
        {
            if self.items[i].0 == k {
                proof {
                    assert(self@[i as int] == (key@, self.items[i as int].1@));
                }
                return Some(&self.items[i].1);
            }
            i += 1;
        }
        None
    }

    /// Inserts a key/value pair: an existing entry of that key takes the new
    /// value, else the pair is appended.
    pub fn insert(&mut self, v: (String, Json))
        requires
            keys_unique(old(self)@),
        ensures
            final(self)@ == entries_insert(old(self)@, v.0@, v.1@),
            keys_unique(final(self)@),
    {
        proof {
            lemma_insert_keeps_unique(self@, v.0@, v.1@);
        }
        let ghost e = self@;
        let mut i: usize = 0;
        while i < self.items.len()
            invariant
                i <= self.items.len(),
                self@ == e,
                e == old(self)@,
                keys_unique(e),
                forall|j: int| 0 <= j < i ==> #[trigger] e[j].0 != v.0@,
            decreases self.items.len() - i,
        {
            if self.items[i].0 == v.0 {
                proof {
                    assert(e[i as int].0 == v.0@);
                    assert(has_key(e, v.0@));
                    let c = choose|c: int| 0 <= c < e.len() && #[trigger] e[c].0 == v.0@;
                    assert(c == i);
                }
                self.items.set(i, v);
                proof {
                    assert(self@ =~= e.update(i as int, (v.0@, v.1@)));
                }
                return;
            }
            i += 1;
        }
        self.items.push(v);
        proof {
            assert(!has_key(e, v.0@));
            assert(self@ =~= e.push((v.0@, v.1@)));
        }
    }

    /// The text of this object: `{ \n`, one `  "key": value,\n` line per
    /// entry in order, and `}`.
    pub fn render(&self) -> (r: String)
        ensures
            r@ == render(JsonValue::Object(self@)),
        decreases self,
    {
        proof {
            reveal_strlit("{ \n");
            reveal_strlit("  \"");
            reveal_strlit("\": ");
            reveal_strlit(",\n");
        }
        let mut r = String::from_str("{ \n");
        let mut i: usize = 0;
        while i < self.items.len()
            invariant
                i <= self.items.len(),
                self@.len() == self.items.len(),
                r@ == "{ \n"@ + render_entries(self@, i as int),
            decreases self.items.len() - i,
        {
            let t = self.items[i].1.render();
            r.append("  \"");
            r.append(self.items[i].0.as_str());
            r.append("\": ");
            r.append(t.as_str());
            r.append(",\n");
            proof {
                assert(self@[i as int] == (self.items[i as int].0@, self.items[i as int].1@));
                assert(r@ =~= "{ \n"@ + render_entries(self@, i + 1));
            }
            i += 1;
        }
        r.append("}");
        proof {
            reveal_strlit("}");
            assert(r@ =~= render(JsonValue::Object(self@)));
        }
        r
    }

    pub closed spec fn view(&self) -> Seq<(Seq<char>, JsonValue)>
        decreases self,
    {
        Seq::new(
            self.items.len() as nat,
            |i: int|
                if 0 <= i < self.items.len() {
                    (self.items[i].0@, self.items[i].1.view())
                } else {
                    (Seq::empty(), JsonValue::Boolean(false))
                },
        )
    }
}

} // verus!
