//! Type skeletons: the compact, JSON-like shape that a schema reduces to,
//! and their canonical text.
use vstd::prelude::*;

verus! {

/// The primitive kinds a schema can name.
#[derive(Clone, Copy, Debug, PartialEq, Eq, Structural)]
pub enum Primitive {
    String,
    Number,
    Integer,
    Boolean,
}

/// Mathematical model of a [`TypeSkeleton`].
pub enum Shape {
    Prim(Primitive),
    List(Box<Shape>),
    /// Entries in the order they are written out. Resolution builds them
    /// with [`record_of`], which lists each key once, in ascending order.
    Record(Seq<(Seq<char>, Shape)>),
    /// A back reference to a schema that was already expanded.
    Token(Seq<char>),
}

/// A resolved schema: a primitive tag, a one-element array, an object
/// mapping property names to skeletons, or the bare name of a schema that
/// was expanded earlier on the same resolution.
#[derive(Debug, PartialEq, Eq)]
pub enum TypeSkeleton {
    Primitive(Primitive),
    Array(Box<TypeSkeleton>),
    Object(Vec<(String, TypeSkeleton)>),
    Name(String),
}

pub open spec fn shape_of(t: &TypeSkeleton) -> Shape
    decreases t,
{
    match t {
        TypeSkeleton::Primitive(p) => Shape::Prim(*p),
        TypeSkeleton::Array(b) => Shape::List(Box::new(shape_of(b))),
        TypeSkeleton::Object(es) => Shape::Record(entries_shape(es@)),
        TypeSkeleton::Name(n) => Shape::Token(n@),
    }
}

pub open spec fn entries_shape(es: Seq<(String, TypeSkeleton)>) -> Seq<(Seq<char>, Shape)>
    decreases es,
{
    if es.len() == 0 {
        Seq::empty()
    } else {
        proof {
            assert(decreases_to!(es => es[es.len() - 1]));
        }
        entries_shape(es.subrange(0, es.len() - 1)).push(
            (es[es.len() - 1].0@, shape_of(&es[es.len() - 1].1)),
        )
    }
}

impl View for TypeSkeleton {
    type V = Shape;

    open spec fn view(&self) -> Shape {
        shape_of(self)
    }
}

pub proof fn lemma_entries_shape(es: Seq<(String, TypeSkeleton)>)
    ensures
        entries_shape(es).len() == es.len(),
        forall|i: int|
            0 <= i < es.len() ==> #[trigger] entries_shape(es)[i] == (es[i].0@, shape_of(&es[i].1)),
    decreases es.len(),
{
    if es.len() > 0 {
        lemma_entries_shape(es.subrange(0, es.len() - 1));
    }
}

/// The JSON string literal for `s`: quoted, with the characters that JSON
/// requires escaped.
pub uninterp spec fn json_quoted(s: Seq<char>) -> Seq<char>;

pub open spec fn primitive_name(p: Primitive) -> Seq<char> {
    match p {
        Primitive::String => "string"@,
        Primitive::Number => "number"@,
        Primitive::Integer => "integer"@,
        Primitive::Boolean => "boolean"@,
    }
}

/// Canonical JSON text of a shape: primitives and back references as JSON
/// strings, lists as one-element arrays, records as objects in entry order.
pub open spec fn shape_text(s: Shape) -> Seq<char>
    decreases s,
{
    match s {
        Shape::Prim(p) => json_quoted(primitive_name(p)),
        Shape::List(b) => "["@ + shape_text(*b) + "]"@,
        Shape::Record(es) => "{"@ + record_text(es) + "}"@,
        Shape::Token(n) => json_quoted(n),
    }
}

/// The entries of a record as `"key":value`, separated by commas.
pub open spec fn record_text(es: Seq<(Seq<char>, Shape)>) -> Seq<char>
    decreases es,
{
    if es.len() == 0 {
        Seq::empty()
    } else {
        proof {
            assert(decreases_to!(es => es[es.len() - 1]));
        }
        let last = json_quoted(es[es.len() - 1].0) + ":"@ + shape_text(es[es.len() - 1].1);
        if es.len() == 1 {
            last
        } else {
            record_text(es.subrange(0, es.len() - 1)) + ","@ + last
        }
    }
}

/// Relies on serde_json's `Display` for `Value`: `Value::String(s)` prints
/// as the compact JSON string literal for `s`, which depends on the
/// characters of `s` alone.
#[verifier::external_body]
fn json_string(s: &str) -> (r: String)
    ensures
        r@ == json_quoted(s@),
{
    serde_json::Value::String(s.to_string()).to_string()
}

impl Primitive {
    /// The tag of this primitive as JSON text, e.g. `"integer"`.
    pub fn to_json(&self) -> (r: String)
        ensures
            r@ == json_quoted(primitive_name(*self)),
    {
        match self {
            Primitive::String => json_string("string"),
            Primitive::Number => json_string("number"),
            Primitive::Integer => json_string("integer"),
            Primitive::Boolean => json_string("boolean"),
        }
    }
}

impl TypeSkeleton {
    /// The canonical JSON text of this skeleton.
    pub fn to_json(&self) -> (r: String)
        ensures
            r@ == shape_text(self@),
        decreases self,
    {
        match self {
            TypeSkeleton::Primitive(p) => p.to_json(),
            TypeSkeleton::Array(b) => {
                let inner = b.to_json();
                let mut out = String::from_str("[");
                out.append(inner.as_str());
                out.append("]");
                proof {
                    reveal_strlit("[");
                    reveal_strlit("]");
                }
                out
            },
            TypeSkeleton::Object(es) => {
                let ghost v = entries_shape(es@);
                proof {
                    lemma_entries_shape(es@);
                }
                let mut out = String::from_str("{");
                let mut i: usize = 0;
                while i < es.len()
                    invariant
                        0 <= i <= es.len(),
                        *self == TypeSkeleton::Object(*es),
                        v == entries_shape(es@),
                        v.len() == es@.len(),
                        forall|j: int| 0 <= j < es.len() ==> #[trigger] v[j] == (es@[j].0@, shape_of(&es@[j].1)),
                        out@ == "{"@ + record_text(v.subrange(0, i as int)),
                    decreases es.len() - i,
                {
                    proof {
                        assert(decreases_to!(es@ => es@[i as int]));
                        assert(decreases_to!(*self => self->Object_0));
                        assert(decreases_to!(*es => es@));
                        assert(decreases_to!(es@[i as int] => es@[i as int].1));
                        assert(decreases_to!(self => es@[i as int].1));
                    }
                    let key = json_string(es[i].0.as_str());
                    let value = es[i].1.to_json();
                    if i > 0 {
                        out.append(",");
                    }
                    out.append(key.as_str());
                    out.append(":");
                    out.append(value.as_str());
                    proof {
                        let w = v.subrange(0, i + 1);
                        assert(w.subrange(0, i as int) =~= v.subrange(0, i as int));
                        assert(w[i as int] == v[i as int]);
                    }
                    i += 1;
                }
                out.append("}");
                proof {
                    assert(v.subrange(0, es.len() as int) =~= v);
                }
                out
            },
            TypeSkeleton::Name(n) => json_string(n.as_str()),
        }
    }
}

/// Strict order on names: lexicographic by code point, a proper prefix
/// first.
pub open spec fn precedes(a: Seq<char>, b: Seq<char>) -> bool
    decreases a.len(),
{
    if a.len() == 0 {
        b.len() > 0
    } else if b.len() == 0 {
        false
    } else if a[0] != b[0] {
        a[0] < b[0]
    } else {
        precedes(a.drop_first(), b.drop_first())
    }
}

/// Whether `a` comes strictly before `b` in code point order.
pub fn text_precedes(a: &str, b: &str) -> (r: bool)
    ensures
        r == precedes(a@, b@),
{
    let n = a.unicode_len();
    let m = b.unicode_len();
    let mut i: usize = 0;
    assert(a@.skip(0) =~= a@);
    assert(b@.skip(0) =~= b@);
    while i < n && i < m
        invariant
            i <= n,
            i <= m,
            n == a@.len(),
            m == b@.len(),
            precedes(a@, b@) == precedes(a@.skip(i as int), b@.skip(i as int)),
        decreases n - i,
    {
        let c = a.get_char(i);
        let d = b.get_char(i);
        assert(a@.skip(i as int)[0] == c);
        assert(b@.skip(i as int)[0] == d);
        if c != d {
            return c < d;
        }
        assert(a@.skip(i as int).drop_first() =~= a@.skip(i + 1));
        assert(b@.skip(i as int).drop_first() =~= b@.skip(i + 1));
        i += 1;
    }
    i == n && i < m
}

/// Where key `k` goes in a record: before the first entry whose key does
/// not precede it.
pub open spec fn insert_position(es: Seq<(Seq<char>, Shape)>, k: Seq<char>) -> int
    decreases es.len(),
{
    if es.len() == 0 || !precedes(es[0].0, k) {
        0
    } else {
        1 + insert_position(es.drop_first(), k)
    }
}

/// The record with `k` bound to `v`: an entry with key `k` is replaced,
/// otherwise the entry is added in key order.
pub open spec fn record_insert(es: Seq<(Seq<char>, Shape)>, k: Seq<char>, v: Shape) -> Seq<
    (Seq<char>, Shape),
> {
    let i = insert_position(es, k);
    if i < es.len() && es[i].0 == k {
        es.update(i, (k, v))
    } else {
        es.insert(i, (k, v))
    }
}

/// The record of a sequence of bindings taken in order: a later binding of
/// a key overrides an earlier one.
pub open spec fn record_of(pairs: Seq<(Seq<char>, Shape)>) -> Seq<(Seq<char>, Shape)>
    decreases pairs.len(),
{
    if pairs.len() == 0 {
        Seq::empty()
    } else {
        record_insert(record_of(pairs.drop_last()), pairs.last().0, pairs.last().1)
    }
}

proof fn lemma_insert_position(es: Seq<(Seq<char>, Shape)>, k: Seq<char>, i: int)
    requires
        0 <= i <= es.len(),
        forall|j: int| 0 <= j < i ==> precedes(#[trigger] es[j].0, k),
        i == es.len() || !precedes(es[i].0, k),
    ensures
        insert_position(es, k) == i,
    decreases i,
{
    if i > 0 {
        let t = es.drop_first();
        assert forall|j: int| 0 <= j < i - 1 implies precedes(#[trigger] t[j].0, k) by {
            assert(t[j] == es[j + 1]);
        }
        lemma_insert_position(t, k, i - 1);
    }
}

/// Binds `k` to `v` in the object entries `es`, keeping them in key order.
pub fn record_insert_entry(es: &mut Vec<(String, TypeSkeleton)>, k: String, v: TypeSkeleton)
    ensures
        entries_shape(final(es)@) == record_insert(entries_shape(old(es)@), k@, v@),
{
    let ghost before = entries_shape(es@);
    proof {
        lemma_entries_shape(es@);
    }
    let mut i: usize = 0;
    while i < es.len() && text_precedes(es[i].0.as_str(), k.as_str())
        invariant
            i <= es.len(),
            before == entries_shape(es@),
            before.len() == es@.len(),
            forall|j: int| 0 <= j < es.len() ==> #[trigger] before[j] == (es@[j].0@, shape_of(&es@[j].1)),
            forall|j: int| 0 <= j < i ==> precedes(#[trigger] before[j].0, k@),
        decreases es.len() - i,
    {
        i += 1;
    }
    proof {
        lemma_insert_position(before, k@, i as int);
    }
    let ghost kv = (k@, v@);
    if i < es.len() && es[i].0 == k {
        es.remove(i);
        es.insert(i, (k, v));
        proof {
            lemma_entries_shape(es@);
            assert(entries_shape(es@) =~= before.update(i as int, kv));
        }
    } else {
        es.insert(i, (k, v));
        proof {
            lemma_entries_shape(es@);
            assert(entries_shape(es@) =~= before.insert(i as int, kv));
        }
    }
}

pub proof fn lemma_precedes_irreflexive(a: Seq<char>)
    ensures
        !precedes(a, a),
    decreases a.len(),
{
    if a.len() > 0 {
        lemma_precedes_irreflexive(a.drop_first());
    }
}

pub proof fn lemma_precedes_total(a: Seq<char>, b: Seq<char>)
    ensures
        a == b || precedes(a, b) || precedes(b, a),
    decreases a.len(),
{
    if a.len() == 0 && b.len() == 0 {
        assert(a =~= b);
    } else if a.len() > 0 && b.len() > 0 && a[0] == b[0] {
        lemma_precedes_total(a.drop_first(), b.drop_first());
        if a.drop_first() == b.drop_first() {
            assert(a =~= b) by {
                assert forall|i: int| 0 <= i < a.len() implies a[i] == b[i] by {
                    if i > 0 {
                        assert(a[i] == a.drop_first()[i - 1]);
                        assert(b[i] == b.drop_first()[i - 1]);
                    }
                }
            }
        }
    }
}

pub proof fn lemma_precedes_transitive(a: Seq<char>, b: Seq<char>, c: Seq<char>)
    requires
        precedes(a, b),
        precedes(b, c),
    ensures
        precedes(a, c),
    decreases a.len(),
{
    if a.len() > 0 && a[0] == b[0] && b[0] == c[0] {
        lemma_precedes_transitive(a.drop_first(), b.drop_first(), c.drop_first());
    }
}

/// The keys of a record, each strictly before the next.
pub open spec fn keys_ascending(es: Seq<(Seq<char>, Shape)>) -> bool {
    forall|a: int, b: int| 0 <= a < b < es.len() ==> precedes(#[trigger] es[a].0, #[trigger] es[b].0)
}

pub proof fn lemma_insert_position_facts(es: Seq<(Seq<char>, Shape)>, k: Seq<char>)
    ensures
        0 <= insert_position(es, k) <= es.len(),
        forall|j: int| 0 <= j < insert_position(es, k) ==> precedes(#[trigger] es[j].0, k),
        insert_position(es, k) == es.len() || !precedes(es[insert_position(es, k)].0, k),
    decreases es.len(),
{
    if es.len() > 0 && precedes(es[0].0, k) {
        let t = es.drop_first();
        lemma_insert_position_facts(t, k);
        assert forall|j: int| 0 <= j < insert_position(es, k) implies precedes(#[trigger] es[j].0, k) by {
            if j > 0 {
                assert(es[j] == t[j - 1]);
            }
        }
        if insert_position(es, k) < es.len() {
            assert(es[insert_position(es, k)] == t[insert_position(t, k)]);
        }
    }
}

/// Binding a key keeps a record's keys ascending.
pub proof fn lemma_record_insert_ascending(es: Seq<(Seq<char>, Shape)>, k: Seq<char>, v: Shape)
    requires
        keys_ascending(es),
    ensures
        keys_ascending(record_insert(es, k, v)),
{
    let i = insert_position(es, k);
    lemma_insert_position_facts(es, k);
    let n = record_insert(es, k, v);
    if i < es.len() && es[i].0 == k {
        assert forall|a: int, b: int| 0 <= a < b < n.len() implies precedes(#[trigger] n[a].0, #[trigger] n[b].0) by {
            assert(n[a].0 == es[a].0 && n[b].0 == es[b].0);
        }
    } else {
        if i < es.len() {
            lemma_precedes_total(es[i].0, k);
        }
        assert forall|a: int, b: int| 0 <= a < b < n.len() implies precedes(#[trigger] n[a].0, #[trigger] n[b].0) by {
            if a == i && b > i {
                if b - 1 > i {
                    lemma_precedes_transitive(k, es[i].0, es[b - 1].0);
                }
            } else if a < i && b > i {
                assert(n[b] == es[b - 1]);
            } else if a > i {
                assert(n[a] == es[a - 1] && n[b] == es[b - 1]);
            }
        }
    }
}

/// A record built from bindings lists each key once, in strictly
/// ascending order.
pub proof fn lemma_record_of_ascending(pairs: Seq<(Seq<char>, Shape)>)
    ensures
        keys_ascending(record_of(pairs)),
    decreases pairs.len(),
{
    if pairs.len() > 0 {
        lemma_record_of_ascending(pairs.drop_last());
        lemma_record_insert_ascending(record_of(pairs.drop_last()), pairs.last().0, pairs.last().1);
    }
}

} // verus!
