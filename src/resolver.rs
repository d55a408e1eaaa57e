//! Resolution of schemas into type skeletons, expanding each component
//! schema at most once per resolution so that cyclic schemas terminate.
use crate::document::{CatalogError, Property, Schema};
use crate::skeleton::{
    entries_shape, insert_position, lemma_insert_position_facts, record_insert, record_insert_entry, record_of, Primitive, Shape,
    TypeSkeleton,
};
use vstd::prelude::*;
use vstd::set_lib::lemma_len_subset;

verus! {

broadcast use {vstd::set::group_set_axioms, vstd::seq_lib::seq_to_set_is_finite};

/// Names of the component schemas.
pub open spec fn component_names(comps: Seq<(String, Schema)>) -> Set<Seq<char>> {
    comps.map_values(|e: (String, Schema)| e.0@).to_set()
}

/// How many component schemas are not yet on the resolution stack.
pub open spec fn unexpanded(comps: Seq<(String, Schema)>, stack: Seq<Seq<char>>) -> nat {
    component_names(comps).difference(stack.to_set()).len()
}

/// The first component schema named `name`.
pub open spec fn find_component(comps: Seq<(String, Schema)>, name: Seq<char>) -> Option<Schema>
    decreases comps.len(),
{
    if comps.len() == 0 {
        None
    } else if comps[0].0@ == name {
        Some(comps[0].1)
    } else {
        find_component(comps.drop_first(), name)
    }
}

/// Index of the last `/` in `r`, or -1.
pub open spec fn last_slash(r: Seq<char>) -> int
    decreases r.len(),
{
    if r.len() == 0 {
        -1
    } else if r.last() == '/' {
        r.len() - 1
    } else {
        last_slash(r.drop_last())
    }
}

/// The component name a reference points to: its final `/`-separated
/// segment.
pub open spec fn reference_name(r: Seq<char>) -> Seq<char> {
    r.subrange(last_slash(r) + 1, r.len() as int)
}

/// Resolves `s` with the names in `stack` already expanded. Gives the
/// result and the names pushed on the stack on the way; the stack only
/// grows, so a schema met again later in the same resolution, as an
/// ancestor or not, becomes a bare name.
pub open spec fn resolve(comps: Seq<(String, Schema)>, s: Schema, stack: Seq<Seq<char>>) -> (
    Result<Shape, CatalogError>,
    Seq<Seq<char>>,
)
    decreases unexpanded(comps, stack), s,
{
    match s {
        Schema::Reference(r) => {
            let name = reference_name(r@);
            if name.len() == 0 {
                (Err(CatalogError::MalformedReference), Seq::empty())
            } else if stack.contains(name) {
                (Ok(Shape::Token(name)), Seq::empty())
            } else {
                match find_component(comps, name) {
                    None => (Err(CatalogError::UnknownSchemaReference), Seq::empty()),
                    Some(body) => {
                        if body is Reference {
                            (Err(CatalogError::UnknownSchemaReference), Seq::empty())
                        } else {
                            proof {
                                lemma_find_component(comps, name);
                                lemma_unexpanded_push(comps, stack, name);
                            }
                            let (res, pushed) = resolve(comps, body, stack.push(name));
                            (res, seq![name] + pushed)
                        }
                    },
                }
            }
        },
        Schema::String => (Ok(Shape::Prim(Primitive::String)), Seq::empty()),
        Schema::Number => (Ok(Shape::Prim(Primitive::Number)), Seq::empty()),
        Schema::Integer => (Ok(Shape::Prim(Primitive::Integer)), Seq::empty()),
        Schema::Boolean => (Ok(Shape::Prim(Primitive::Boolean)), Seq::empty()),
        Schema::Array(items) => match items {
            None => (Err(CatalogError::MissingArrayItems), Seq::empty()),
            Some(b) => {
                let (res, pushed) = resolve(comps, *b, stack);
                match res {
                    Ok(t) => (Ok(Shape::List(Box::new(t))), pushed),
                    Err(e) => (Err(e), pushed),
                }
            },
        },
        Schema::Object(props) => {
            let (res, pushed) = resolve_properties(comps, props@, stack);
            match res {
                Ok(pairs) => (Ok(Shape::Record(record_of(pairs))), pushed),
                Err(e) => (Err(e), pushed),
            }
        },
        Schema::Unsupported => (Err(CatalogError::UnsupportedSchemaKind), Seq::empty()),
    }
}

/// Resolves properties in declaration order, each starting from the stack
/// its predecessors left. Gives the bindings and the names pushed.
pub open spec fn resolve_properties(
    comps: Seq<(String, Schema)>,
    props: Seq<Property>,
    stack: Seq<Seq<char>>,
) -> (Result<Seq<(Seq<char>, Shape)>, CatalogError>, Seq<Seq<char>>)
    decreases unexpanded(comps, stack), props,
{
    if props.len() == 0 {
        (Ok(Seq::empty()), Seq::empty())
    } else {
        let n = props.len() - 1;
        let (res, pushed) = resolve_properties(comps, props.subrange(0, n), stack);
        match res {
            Err(e) => (Err(e), pushed),
            Ok(pairs) => match props[n].schema {
                None => (Err(CatalogError::MissingPropertySchema), pushed),
                Some(ps) => {
                    proof {
                        lemma_unexpanded_grow(comps, stack, pushed);
                        assert(decreases_to!(props => props[n]));
                        assert(decreases_to!(props[n] => props[n].schema));
                        assert(decreases_to!(props[n].schema => props[n].schema->Some_0));
                    }
                    let (r, more) = resolve(comps, ps, stack + pushed);
                    match r {
                        Ok(t) => (Ok(pairs.push((props[n].name@, t))), pushed + more),
                        Err(e) => (Err(e), pushed + more),
                    }
                },
            },
        }
    }
}

pub proof fn lemma_find_component(comps: Seq<(String, Schema)>, name: Seq<char>)
    ensures
        find_component(comps, name) is Some ==> component_names(comps).contains(name),
    decreases comps.len(),
{
    if comps.len() > 0 {
        let f = |e: (String, Schema)| e.0@;
        if comps[0].0@ == name {
            assert(comps.map_values(f)[0] == name);
        } else {
            lemma_find_component(comps.drop_first(), name);
            if find_component(comps, name) is Some {
                let t = comps.drop_first().map_values(f);
                let i = choose|i: int| 0 <= i < t.len() && t[i] == name;
                assert(comps.map_values(f)[i + 1] == name);
            }
        }
    }
}

pub proof fn lemma_unexpanded_grow(comps: Seq<(String, Schema)>, stack: Seq<Seq<char>>, more: Seq<Seq<char>>)
    ensures
        unexpanded(comps, stack + more) <= unexpanded(comps, stack),
{
    let a = component_names(comps);
    assert forall|x| a.difference((stack + more).to_set()).contains(x) implies a.difference(
        stack.to_set(),
    ).contains(x) by {
        if stack.contains(x) {
            let i = choose|i: int| 0 <= i < stack.len() && stack[i] == x;
            assert((stack + more)[i] == x);
        }
    }
    lemma_len_subset(a.difference((stack + more).to_set()), a.difference(stack.to_set()));
}

pub proof fn lemma_unexpanded_push(comps: Seq<(String, Schema)>, stack: Seq<Seq<char>>, name: Seq<char>)
    requires
        component_names(comps).contains(name),
        !stack.contains(name),
    ensures
        unexpanded(comps, stack.push(name)) < unexpanded(comps, stack),
{
    let a = component_names(comps);
    let d = a.difference(stack.to_set());
    assert(a.difference(stack.push(name).to_set()) =~= d.remove(name)) by {
        assert(stack.push(name)[stack.len() as int] == name);
        assert forall|x| stack.push(name).contains(x) implies x == name || stack.contains(x) by {
            let i = choose|i: int| 0 <= i < stack.push(name).len() && stack.push(name)[i] == x;
            if i < stack.len() {
                assert(stack[i] == x);
            }
        }
        assert forall|x| stack.contains(x) implies stack.push(name).contains(x) by {
            let i = choose|i: int| 0 <= i < stack.len() && stack[i] == x;
            assert(stack.push(name)[i] == x);
        }
    }
}

/// A resolution result seen through the skeleton's model.
pub open spec fn result_shape(r: Result<TypeSkeleton, CatalogError>) -> Result<Shape, CatalogError> {
    match r {
        Ok(t) => Ok(t@),
        Err(e) => Err(e),
    }
}

/// Once some prefix of the properties fails, resolving all of them fails
/// with the same error.
pub proof fn lemma_properties_error(
    comps: Seq<(String, Schema)>,
    props: Seq<Property>,
    stack: Seq<Seq<char>>,
    k: int,
)
    requires
        0 <= k <= props.len(),
        resolve_properties(comps, props.subrange(0, k), stack).0 is Err,
    ensures
        resolve_properties(comps, props, stack).0 == resolve_properties(
            comps,
            props.subrange(0, k),
            stack,
        ).0,
    decreases props.len() - k,
{
    if k < props.len() {
        let init = props.subrange(0, props.len() - 1);
        assert(init.subrange(0, k) =~= props.subrange(0, k));
        lemma_properties_error(comps, init, stack, k);
    } else {
        assert(props.subrange(0, k) =~= props);
    }
}

/// The part of `r` after its last `/`.
fn reference_name_of(r: &str) -> (name: String)
    ensures
        name@ == reference_name(r@),
{
    let n = r.unicode_len();
    let mut j = n;
    assert(r@.subrange(0, n as int) =~= r@);
    while j > 0 && r.get_char(j - 1) != '/'
        invariant
            j <= n,
            n == r@.len(),
            last_slash(r@) == last_slash(r@.subrange(0, j as int)),
        decreases j,
    {
        assert(r@.subrange(0, j as int).drop_last() =~= r@.subrange(0, j - 1));
        j -= 1;
    }
    if j > 0 {
        assert(r@.subrange(0, j as int).last() == r@[j - 1]);
    }
    String::from_str(r.substring_char(j, n))
}

/// Index of the first component named `name`.
fn find_component_index(comps: &Vec<(String, Schema)>, name: &String) -> (r: Option<usize>)
    ensures
        match r {
            None => find_component(comps@, name@) is None,
            Some(i) => i < comps.len() && find_component(comps@, name@) == Some(comps@[i as int].1),
        },
{
    let mut i: usize = 0;
    assert(comps@.skip(0) =~= comps@);
    while i < comps.len()
        invariant
            i <= comps.len(),
            find_component(comps@, name@) == find_component(comps@.skip(i as int), name@),
        decreases comps.len() - i,
    {
        assert(comps@.skip(i as int)[0] == comps@[i as int]);
        if comps[i].0 == *name {
            return Some(i);
        }
        assert(comps@.skip(i as int).drop_first() =~= comps@.skip(i + 1));
        i += 1;
    }
    None
}

/// Resolves schemas against a document's components. The names it has
/// expanded stay recorded for the parser's lifetime: use a fresh parser for
/// each independent resolution.
pub struct Parser {
    stack: Vec<String>,
}

impl Parser {
    /// The names of the component schemas expanded so far, in order.
    pub closed spec fn expanded(&self) -> Seq<Seq<char>> {
        self.stack@.map_values(|s: String| s@)
    }

    pub fn new() -> (p: Parser)
        ensures
            p.expanded() == Seq::<Seq<char>>::empty(),
    {
        let p = Parser { stack: Vec::new() };
        assert(p.expanded() =~= Seq::<Seq<char>>::empty());
        p
    }

    fn has_expanded(&self, name: &String) -> (r: bool)
        ensures
            r == self.expanded().contains(name@),
    {
        let mut i: usize = 0;
        while i < self.stack.len()
            invariant
                i <= self.stack.len(),
                forall|j: int| 0 <= j < i ==> self.expanded()[j] != name@,
            decreases self.stack.len() - i,
        {
            if self.stack[i] == *name {
                assert(self.expanded()[i as int] == name@);
                return true;
            }
            i += 1;
        }
        false
    }

    /// Resolves `schema` into a type skeleton, recording each component
    /// schema it expands.
    pub fn parse_schema(&mut self, components: &Vec<(String, Schema)>, schema: &Schema) -> (r: Result<
        TypeSkeleton,
        CatalogError,
    >)
        ensures
            result_shape(r) == resolve(components@, *schema, old(self).expanded()).0,
            r is Ok ==> final(self).expanded() == old(self).expanded() + resolve(
                components@,
                *schema,
                old(self).expanded(),
            ).1,
        decreases unexpanded(components@, self.expanded()), *schema,
    {
        let ghost stack0 = self.expanded();
        match schema {
            Schema::Reference(reference) => {
                let name = reference_name_of(reference.as_str());
                if name.as_str().is_empty() {
                    return Err(CatalogError::MalformedReference);
                }
                if self.has_expanded(&name) {
                    return Ok(TypeSkeleton::Name(name));
                }
                match find_component_index(components, &name) {
                    None => Err(CatalogError::UnknownSchemaReference),
                    Some(i) => {
                        let body = &components[i].1;
                        if matches!(body, Schema::Reference(_)) {
                            return Err(CatalogError::UnknownSchemaReference);
                        }
                        let ghost n = name@;
                        proof {
                            lemma_find_component(components@, n);
                            lemma_unexpanded_push(components@, stack0, n);
                        }
                        self.stack.push(name);
                        assert(self.expanded() =~= stack0.push(n));
                        let r = self.parse_schema(components, body);
                        proof {
                            let pushed = resolve(components@, *body, stack0.push(n)).1;
                            assert(stack0.push(n) + pushed =~= stack0 + (seq![n] + pushed));
                        }
                        r
                    },
                }
            },
            Schema::String => Ok(TypeSkeleton::Primitive(Primitive::String)),
            Schema::Number => Ok(TypeSkeleton::Primitive(Primitive::Number)),
            Schema::Integer => Ok(TypeSkeleton::Primitive(Primitive::Integer)),
            Schema::Boolean => Ok(TypeSkeleton::Primitive(Primitive::Boolean)),
            Schema::Array(items) => match items {
                None => Err(CatalogError::MissingArrayItems),
                Some(b) => match self.parse_schema(components, b) {
                    Ok(t) => Ok(TypeSkeleton::Array(Box::new(t))),
                    Err(e) => Err(e),
                },
            },
            Schema::Object(props) => {
                let mut entries: Vec<(String, TypeSkeleton)> = Vec::new();
                let ghost mut pairs: Seq<(Seq<char>, Shape)> = Seq::empty();
                let ghost mut pushed: Seq<Seq<char>> = Seq::empty();
                let mut i: usize = 0;
                assert(stack0 + pushed =~= stack0);
                assert(entries_shape(entries@) =~= record_of(pairs));
                while i < props.len()
                    invariant
                        i <= props.len(),
                        *schema == Schema::Object(*props),
                        stack0 == old(self).expanded(),
                        resolve_properties(components@, props@.subrange(0, i as int), stack0) == (
                        Ok::<Seq<(Seq<char>, Shape)>, CatalogError>(pairs), pushed),
                        self.expanded() == stack0 + pushed,
                        entries_shape(entries@) == record_of(pairs),
                    decreases props.len() - i,
                {
                    let prop = &props[i];
                    let ghost sub = props@.subrange(0, i + 1);
                    assert(sub.subrange(0, i as int) =~= props@.subrange(0, i as int));
                    assert(sub[i as int] == props@[i as int]);
                    match &prop.schema {
                        None => {
                            proof {
                                lemma_properties_error(components@, props@, stack0, i + 1);
                                assert(props@.subrange(0, props.len() as int) =~= props@);
                            }
                            return Err(CatalogError::MissingPropertySchema);
                        },
                        Some(ps) => {
                            proof {
                                lemma_unexpanded_grow(components@, stack0, pushed);
                                assert(decreases_to!(*schema => schema->Object_0));
                                assert(decreases_to!(schema->Object_0 => props@));
                                assert(decreases_to!(props@ => props@[i as int]));
                                assert(decreases_to!(props@[i as int] => props@[i as int].schema));
                                assert(decreases_to!(props@[i as int].schema => props@[i as int].schema->Some_0));
                            }
                            let r = self.parse_schema(components, ps);
                            let ghost step = resolve(components@, *ps, stack0 + pushed);
                            match r {
                                Err(e) => {
                                    proof {
                                        lemma_properties_error(components@, props@, stack0, i + 1);
                                    }
                                    return Err(e);
                                },
                                Ok(t) => {
                                    let ghost sh = t@;
                                    let name = prop.name.clone();
                                    record_insert_entry(&mut entries, name, t);
                                    proof {
                                        assert(pairs.push((prop.name@, sh)).drop_last() =~= pairs);
                                        pairs = pairs.push((prop.name@, sh));
                                        assert(stack0 + pushed + step.1 =~= stack0 + (pushed + step.1));
                                        pushed = pushed + step.1;
                                    }
                                },
                            }
                        },
                    }
                    i += 1;
                }
                assert(props@.subrange(0, props.len() as int) =~= props@);
                Ok(TypeSkeleton::Object(entries))
            },
            Schema::Unsupported => Err(CatalogError::UnsupportedSchemaKind),
        }
    }
}

/// A primitive schema resolves to its tag, and pushes nothing, whatever
/// has been expanded before it.
pub proof fn lemma_primitive_resolves(comps: Seq<(String, Schema)>, stack: Seq<Seq<char>>)
    ensures
        resolve(comps, Schema::String, stack) == (Ok::<Shape, CatalogError>(Shape::Prim(Primitive::String)), Seq::<Seq<char>>::empty()),
        resolve(comps, Schema::Number, stack) == (Ok::<Shape, CatalogError>(Shape::Prim(Primitive::Number)), Seq::<Seq<char>>::empty()),
        resolve(comps, Schema::Integer, stack) == (Ok::<Shape, CatalogError>(Shape::Prim(Primitive::Integer)), Seq::<Seq<char>>::empty()),
        resolve(comps, Schema::Boolean, stack) == (Ok::<Shape, CatalogError>(Shape::Prim(Primitive::Boolean)), Seq::<Seq<char>>::empty()),
{
}

/// An array resolves to a one-element list holding the resolution of its
/// items, or fails as its items do.
pub proof fn lemma_array_wraps(comps: Seq<(String, Schema)>, items: Schema, stack: Seq<Seq<char>>)
    ensures
        resolve(comps, Schema::Array(Some(Box::new(items))), stack).0 == match resolve(comps, items, stack).0 {
            Ok(t) => Ok::<Shape, CatalogError>(Shape::List(Box::new(t))),
            Err(e) => Err(e),
        },
{
}

/// The property's schema is a reference to a name on `stack`.
pub open spec fn refers_back_to(p: Property, stack: Seq<Seq<char>>) -> bool {
    p.schema matches Some(Schema::Reference(r)) && reference_name(r@).len() > 0 && stack.contains(
        reference_name(r@),
    )
}

/// Resolving properties gives one binding per property, in order, keyed
/// by the property's name; a property that refers to a schema already on
/// the stack is bound to that schema's bare name.
pub proof fn lemma_properties_bindings(comps: Seq<(String, Schema)>, props: Seq<Property>, stack: Seq<Seq<char>>)
    requires
        resolve_properties(comps, props, stack).0 is Ok,
    ensures
        ({
            let pairs = resolve_properties(comps, props, stack).0->Ok_0;
            &&& pairs.len() == props.len()
            &&& forall|j: int| 0 <= j < props.len() ==> #[trigger] pairs[j].0 == props[j].name@
            &&& forall|j: int|
                0 <= j < props.len() && refers_back_to(props[j], stack) ==> #[trigger] pairs[j].1
                    == Shape::Token(reference_name(props[j].schema->Some_0->Reference_0@))
        }),
    decreases props.len(),
{
    if props.len() > 0 {
        let n = props.len() - 1;
        let init = props.subrange(0, n);
        let (res, pushed) = resolve_properties(comps, init, stack);
        assert(res is Ok);
        lemma_properties_bindings(comps, init, stack);
        let pairs = res->Ok_0;
        let ps = props[n].schema->Some_0;
        let t = resolve(comps, ps, stack + pushed).0->Ok_0;
        let all = resolve_properties(comps, props, stack).0->Ok_0;
        assert(all == pairs.push((props[n].name@, t)));
        if refers_back_to(props[n], stack) {
            let name = reference_name(ps->Reference_0@);
            let i = choose|i: int| 0 <= i < stack.len() && stack[i] == name;
            assert((stack + pushed)[i] == name);
            assert(t == Shape::Token(name));
        }
        assert forall|j: int| 0 <= j < n implies all[j] == pairs[j] && props[j] == init[j] by {}
    }
}

/// A record built from bindings holds each binding that no later binding
/// overrides.
pub proof fn lemma_record_of_keeps(pairs: Seq<(Seq<char>, Shape)>, j: int)
    requires
        0 <= j < pairs.len(),
        forall|m: int| j < m < pairs.len() ==> #[trigger] pairs[m].0 != pairs[j].0,
    ensures
        record_of(pairs).contains(pairs[j]),
    decreases pairs.len(),
{
    let n = pairs.len() - 1;
    let init = pairs.drop_last();
    let es = record_of(init);
    let (k, v) = pairs[n];
    let i = insert_position(es, k);
    lemma_insert_position_facts(es, k);
    if j == n {
        if i < es.len() && es[i].0 == k {
            assert(record_insert(es, k, v)[i] == (k, v));
        } else {
            assert(record_insert(es, k, v)[i] == (k, v));
        }
    } else {
        assert forall|m: int| j < m < init.len() implies #[trigger] init[m].0 != init[j].0 by {
            assert(init[m] == pairs[m]);
        }
        lemma_record_of_keeps(init, j);
        assert(init[j] == pairs[j]);
        let m = choose|m: int| 0 <= m < es.len() && es[m] == pairs[j];
        if i < es.len() && es[i].0 == k {
            assert(m != i);
            assert(record_insert(es, k, v)[m] == pairs[j]);
        } else if m < i {
            assert(record_insert(es, k, v)[m] == pairs[j]);
        } else {
            assert(record_insert(es, k, v)[m + 1] == pairs[j]);
        }
    }
}

/// A component schema whose property `k` refers back to the component
/// itself: resolving a reference to it expands it once, and binds that
/// property to the component's bare name instead of expanding it again.
pub proof fn lemma_self_reference_is_token(
    comps: Seq<(String, Schema)>,
    r: String,
    stack: Seq<Seq<char>>,
    props: Vec<Property>,
    k: int,
    back: String,
)
    requires
        reference_name(r@).len() > 0,
        !stack.contains(reference_name(r@)),
        find_component(comps, reference_name(r@)) == Some(Schema::Object(props)),
        0 <= k < props@.len(),
        props@[k].schema == Some(Schema::Reference(back)),
        reference_name(back@) == reference_name(r@),
        forall|a: int, b: int| 0 <= a < b < props@.len() ==> props@[a].name@ != props@[b].name@,
        resolve(comps, Schema::Reference(r), stack).0 is Ok,
    ensures
        resolve(comps, Schema::Reference(r), stack).0 matches Ok(Shape::Record(es)) && es.contains(
            (props@[k].name@, Shape::Token(reference_name(r@))),
        ),
{
    let name = reference_name(r@);
    let st = stack.push(name);
    assert(st[stack.len() as int] == name);
    let body = Schema::Object(props);
    assert(resolve(comps, Schema::Reference(r), stack).0 == resolve(comps, body, st).0);
    assert(resolve_properties(comps, props@, st).0 is Ok);
    lemma_properties_bindings(comps, props@, st);
    let pairs = resolve_properties(comps, props@, st).0->Ok_0;
    assert(pairs[k] == (props@[k].name@, Shape::Token(name)));
    assert forall|m: int| k < m < pairs.len() implies #[trigger] pairs[m].0 != pairs[k].0 by {
        assert(pairs[m].0 == props@[m].name@);
    }
    lemma_record_of_keeps(pairs, k);
}

} // verus!
