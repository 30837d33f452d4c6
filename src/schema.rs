//! Aggregate shapes (records, enumerations, one-ofs, state objects) and the
//! schemas that collect them.
use vstd::prelude::*;
use std::cmp::Ordering;
use vstd::std_specs::cmp::PartialOrdSpec;
use vstd::string::StringSliceAdditionalSpecFns;

verus! {

/// A named field of a record.
#[derive(Debug, Clone, Copy, PartialEq, Eq)]
pub struct Field<'a> {
    pub name: &'a str,
    /// The name of the field's type.
    pub kind_name: &'a str,
    pub nullable: bool,
}

/// A record: named, ordered fields.
#[derive(Debug, Clone, Copy, PartialEq, Eq)]
pub struct StructType<'a> {
    pub name: &'a str,
    pub fields: &'a [Field<'a>],
}

/// A named value of an enumeration.
#[derive(Debug, Clone, Copy, PartialEq, Eq)]
pub struct EnumVariant<'a> {
    pub name: &'a str,
    pub discriminant: i32,
}

/// A tagged union of named values.
#[derive(Debug, Clone, Copy, PartialEq, Eq)]
pub struct EnumType<'a> {
    pub name: &'a str,
    pub variants: &'a [EnumVariant<'a>],
}

/// A named alternative of a one-of, with its discriminant and payload type.
#[derive(Debug, Clone, Copy, PartialEq, Eq)]
pub struct OneOfCase<'a> {
    pub name: &'a str,
    pub discriminant: i32,
    pub kind_name: &'a str,
}

/// A selection of one among named alternatives.
#[derive(Debug, Clone, Copy, PartialEq, Eq)]
pub struct OneOfType<'a> {
    pub name: &'a str,
    pub cases: &'a [OneOfCase<'a>],
}

/// A record kept as persisted state: its key fields give its identity.
#[derive(Debug, Clone, Copy, PartialEq, Eq)]
pub struct StateObjectType<'a> {
    pub name: &'a str,
    pub key_fields: &'a [Field<'a>],
    pub value_fields: &'a [Field<'a>],
    pub retained: bool,
}

/// The description of a message that a schema declares.
#[derive(Debug, Clone, Copy, PartialEq, Eq)]
pub struct MessageDescriptor<'a> {
    pub name: &'a str,
}

/// One named entry of a schema.
#[non_exhaustive]
#[derive(Debug, Clone, Copy, PartialEq, Eq)]
pub enum SchemaType<'a> {
    Struct(StructType<'a>),
    Enum(EnumType<'a>),
    OneOf(OneOfType<'a>),
    StateObjectType(StateObjectType<'a>),
}

/// The lexicographic order of two byte strings (that of `str`, on UTF-8).
pub open spec fn lex_cmp(a: Seq<u8>, b: Seq<u8>) -> Ordering
    decreases a.len(),
{
    if a.len() == 0 {
        if b.len() == 0 { Ordering::Equal } else { Ordering::Less }
    } else if b.len() == 0 {
        Ordering::Greater
    } else if a[0] < b[0] {
        Ordering::Less
    } else if a[0] > b[0] {
        Ordering::Greater
    } else {
        lex_cmp(a.drop_first(), b.drop_first())
    }
}

/// Compares two byte strings lexicographically.
pub fn compare_bytes(a: &[u8], b: &[u8]) -> (r: Ordering)
    ensures
        r == lex_cmp(a@, b@),
{
    let mut i: usize = 0;
    assert(a@.skip(0) =~= a@);
    assert(b@.skip(0) =~= b@);
    loop
        invariant
            i <= a@.len(),
            i <= b@.len(),
            lex_cmp(a@, b@) == lex_cmp(a@.skip(i as int), b@.skip(i as int)),
        decreases a@.len() - i,
    {
        if i == a.len() {
            if i == b.len() {
                return Ordering::Equal;
            } else {
                return Ordering::Less;
            }
        }
        if i == b.len() {
            return Ordering::Greater;
        }
        if a[i] < b[i] {
            return Ordering::Less;
        }
        if a[i] > b[i] {
            return Ordering::Greater;
        }
        assert(a@.skip(i as int).drop_first() =~= a@.skip(i + 1));
        assert(b@.skip(i as int).drop_first() =~= b@.skip(i + 1));
        i = i + 1;
    }
}

impl<'a> SchemaType<'a> {
    /// The name that identifies the type, whatever its kind.
    pub open spec fn spec_name(&self) -> &'a str {
        match self {
            SchemaType::Struct(s) => s.name,
            SchemaType::Enum(e) => e.name,
            SchemaType::OneOf(o) => o.name,
            SchemaType::StateObjectType(s) => s.name,
        }
    }

    /// Returns the identifying name regardless of kind.
    #[verifier::when_used_as_spec(spec_name)]
    pub fn name(&self) -> (r: &'a str)
        ensures
            r == self.spec_name(),
    {
        match self {
            SchemaType::Struct(s) => s.name,
            SchemaType::Enum(e) => e.name,
            SchemaType::OneOf(o) => o.name,
            SchemaType::StateObjectType(s) => s.name,
        }
    }

    /// Orders two schema types by their names alone.
    pub fn cmp(&self, other: &Self) -> (r: Ordering)
        ensures
            r == lex_cmp(self.spec_name().spec_bytes(), other.spec_name().spec_bytes()),
    {
        compare_bytes(self.name().as_bytes(), other.name().as_bytes())
    }
}

impl<'a> PartialOrd for SchemaType<'a> {
    fn partial_cmp(&self, other: &Self) -> (r: Option<Ordering>)
        ensures
            r == Some(lex_cmp(self.spec_name().spec_bytes(), other.spec_name().spec_bytes())),
    {
        Some(self.cmp(other))
    }
}

impl<'a> vstd::std_specs::cmp::PartialOrdSpecImpl for SchemaType<'a> {
    open spec fn obeys_partial_cmp_spec() -> bool {
        true
    }

    open spec fn partial_cmp_spec(&self, other: &Self) -> Option<Ordering> {
        Some(lex_cmp(self.spec_name().spec_bytes(), other.spec_name().spec_bytes()))
    }
}

/// Comparing two byte strings in either order gives opposite answers.
pub proof fn lemma_lex_cmp_antisymmetric(a: Seq<u8>, b: Seq<u8>)
    ensures
        lex_cmp(a, b) == Ordering::Less <==> lex_cmp(b, a) == Ordering::Greater,
        lex_cmp(a, b) == Ordering::Equal <==> a == b,
    decreases a.len(),
{
    if a.len() > 0 && b.len() > 0 {
        lemma_lex_cmp_antisymmetric(a.drop_first(), b.drop_first());
        if a[0] == b[0] && a.drop_first() == b.drop_first() {
            assert(a =~= seq![a[0]] + a.drop_first());
            assert(b =~= seq![b[0]] + b.drop_first());
        }
    }
    if a.len() == 0 && b.len() == 0 {
        assert(a =~= b);
    }
}

/// The lexicographic order is transitive.
pub proof fn lemma_lex_cmp_transitive(a: Seq<u8>, b: Seq<u8>, c: Seq<u8>)
    requires
        lex_cmp(a, b) == Ordering::Less,
        lex_cmp(b, c) == Ordering::Less,
    ensures
        lex_cmp(a, c) == Ordering::Less,
    decreases a.len(),
{
    if a.len() > 0 && b.len() > 0 && c.len() > 0 && a[0] == b[0] && b[0] == c[0] {
        lemma_lex_cmp_transitive(a.drop_first(), b.drop_first(), c.drop_first());
    }
}

/// Schema types are ordered by name alone: `a < b` exactly when `a`'s name
/// comes before `b`'s, and the order is a strict total order on names.
pub proof fn lemma_schema_type_order<'a>(a: SchemaType<'a>, b: SchemaType<'a>, c: SchemaType<'a>)
    ensures
        a.partial_cmp_spec(&b) == Some(Ordering::Less) <==> lex_cmp(
            a.spec_name().spec_bytes(),
            b.spec_name().spec_bytes(),
        ) == Ordering::Less,
        a.partial_cmp_spec(&b) == Some(Ordering::Less) <==> b.partial_cmp_spec(&a) == Some(
            Ordering::Greater,
        ),
        a.partial_cmp_spec(&b) == Some(Ordering::Equal) <==> a.spec_name().spec_bytes()
            == b.spec_name().spec_bytes(),
        a.partial_cmp_spec(&b) == Some(Ordering::Less) && b.partial_cmp_spec(&c) == Some(
            Ordering::Less,
        ) ==> a.partial_cmp_spec(&c) == Some(Ordering::Less),
{
    let (x, y, z) = (a.spec_name().spec_bytes(), b.spec_name().spec_bytes(), c.spec_name().spec_bytes());
    lemma_lex_cmp_antisymmetric(x, y);
    if lex_cmp(x, y) == Ordering::Less && lex_cmp(y, z) == Ordering::Less {
        lemma_lex_cmp_transitive(x, y, z);
    }
}

/// `a`'s name does not come after `b`'s.
pub open spec fn name_le<'a>(a: SchemaType<'a>, b: SchemaType<'a>) -> bool {
    lex_cmp(a.spec_name().spec_bytes(), b.spec_name().spec_bytes()) != Ordering::Greater
}

/// The types are in order of name.
pub open spec fn sorted_by_name<'a>(s: Seq<SchemaType<'a>>) -> bool {
    forall|i: int, j: int| 0 <= i < j < s.len() ==> name_le(#[trigger] s[i], #[trigger] s[j])
}

/// `name_le` is a total preorder.
pub proof fn lemma_name_le_total<'a>(a: SchemaType<'a>, b: SchemaType<'a>, c: SchemaType<'a>)
    ensures
        name_le(a, b) || name_le(b, a),
        !name_le(a, b) ==> lex_cmp(b.spec_name().spec_bytes(), a.spec_name().spec_bytes())
            == Ordering::Less,
        name_le(a, b) && name_le(b, c) ==> name_le(a, c),
{
    let (x, y, z) = (a.spec_name().spec_bytes(), b.spec_name().spec_bytes(), c.spec_name().spec_bytes());
    lemma_lex_cmp_antisymmetric(x, y);
    lemma_lex_cmp_antisymmetric(y, x);
    lemma_lex_cmp_antisymmetric(x, z);
    lemma_lex_cmp_antisymmetric(y, z);
    if lex_cmp(x, y) == Ordering::Less && lex_cmp(y, z) == Ordering::Less {
        lemma_lex_cmp_transitive(x, y, z);
    }
}

/// An ordered collection of schema types, with the messages it declares.
/// A schema is not changed once built: adding a type gives a new schema.
#[non_exhaustive]
#[derive(Debug, Clone, PartialEq, Eq)]
pub struct Schema<'a> {
    types: Vec<SchemaType<'a>>,
    messages: Vec<MessageDescriptor<'a>>,
}

impl<'a> Schema<'a> {
    /// The types, in the order in which they were added.
    pub closed spec fn spec_types(&self) -> Seq<SchemaType<'a>> {
        self.types@
    }

    /// The messages, in the order in which they were added.
    pub closed spec fn spec_messages(&self) -> Seq<MessageDescriptor<'a>> {
        self.messages@
    }

    /// A schema with no types and no messages.
    pub fn new() -> (r: Schema<'a>)
        ensures
            r.spec_types() == Seq::<SchemaType<'a>>::empty(),
            r.spec_messages() == Seq::<MessageDescriptor<'a>>::empty(),
    {
        Schema { types: Vec::new(), messages: Vec::new() }
    }

    /// The types of the schema, in order.
    pub fn types(&self) -> (r: &[SchemaType<'a>])
        ensures
            r@ == self.spec_types(),
    {
        self.types.as_slice()
    }

    /// The messages of the schema, in order.
    pub fn messages(&self) -> (r: &[MessageDescriptor<'a>])
        ensures
            r@ == self.spec_messages(),
    {
        self.messages.as_slice()
    }

    /// The types ordered by name; types with equal names keep the order in
    /// which they were added.
    pub fn sorted_types(&self) -> (r: Vec<SchemaType<'a>>)
        ensures
            sorted_by_name(r@),
            r@.to_multiset() == self.spec_types().to_multiset(),
    {
        let mut r: Vec<SchemaType<'a>> = Vec::new();
        let mut k: usize = 0;
        proof {
            assert(self.types@.subrange(0, 0) =~= Seq::<SchemaType<'a>>::empty());
            assert(r@ =~= Seq::<SchemaType<'a>>::empty());
        }
        while k < self.types.len()
            invariant
                k <= self.types@.len(),
                sorted_by_name(r@),
                r@.to_multiset() == self.types@.subrange(0, k as int).to_multiset(),
            decreases self.types@.len() - k,
        {
            let x = self.types[k];
            let mut j: usize = 0;
            loop
                invariant
                    j <= r@.len(),
                    forall|i: int| 0 <= i < j ==> name_le(#[trigger] r@[i], x),
                ensures
                    j <= r@.len(),
                    forall|i: int| 0 <= i < j ==> name_le(#[trigger] r@[i], x),
                    j < r@.len() ==> lex_cmp(x.spec_name().spec_bytes(), r@[j as int].spec_name().spec_bytes())
                        == Ordering::Less,
                decreases r@.len() - j,
            {
                if j >= r.len() {
                    break;
                }
                if matches!(x.cmp(&r[j]), Ordering::Less) {
                    break;
                }
                proof {
                    lemma_lex_cmp_antisymmetric(x.spec_name().spec_bytes(), r@[j as int].spec_name().spec_bytes());
                    assert(name_le(r@[j as int], x));
                }
                j = j + 1;
            }
            let ghost before = r@;
            proof {
                if j < before.len() {
                    assert forall|i: int| j <= i < before.len() implies name_le(x, #[trigger] before[i]) by {
                        if i > j {
                            assert(name_le(before[j as int], before[i]));
                        }
                        lemma_name_le_total(x, before[j as int], before[i]);
                    }
                }
            }
            r.insert(j, x);
            proof {
                assert(r@ == before.insert(j as int, x));
                assert forall|a: int, b: int| 0 <= a < b < r@.len() implies name_le(#[trigger] r@[a], #[trigger] r@[b]) by {
                    if a < j && b > j {
                        lemma_name_le_total(before[a], x, before[b - 1]);
                    } else if a < j && b < j {
                        assert(name_le(before[a], before[b]));
                    } else if a > j {
                        assert(name_le(before[a - 1], before[b - 1]));
                    }
                }
                vstd::seq_lib::to_multiset_insert(before, j as int, x);
                assert(self.types@.subrange(0, k + 1) =~= self.types@.subrange(0, k as int).push(x));
                self.types@.subrange(0, k as int).to_multiset_ensures();
            }
            k = k + 1;
        }
        proof {
            assert(self.types@.subrange(0, k as int) =~= self.types@);
        }
        r
    }

    /// A new schema that holds this one's types followed by `schema_type`,
    /// and the same messages. `self` is left as it is.
    pub fn add(&self, schema_type: SchemaType<'a>) -> (r: Schema<'a>)
        ensures
            r.spec_types() == self.spec_types().push(schema_type),
            r.spec_messages() == self.spec_messages(),
    {
        let types = copy_all(&self.types);
        let messages = copy_all(&self.messages);
        let mut types = types;
        types.push(schema_type);
        Schema { types, messages }
    }

    /// A new schema that holds this one's messages followed by `message`,
    /// and the same types.
    pub fn add_message(&self, message: MessageDescriptor<'a>) -> (r: Schema<'a>)
        ensures
            r.spec_types() == self.spec_types(),
            r.spec_messages() == self.spec_messages().push(message),
    {
        let types = copy_all(&self.types);
        let mut messages = copy_all(&self.messages);
        messages.push(message);
        Schema { types, messages }
    }
}

/// A type that describes itself with a schema.
pub trait HasSchema {
    fn schema() -> Schema<'static>;
}

/// Adding a type leaves the original schema as it was, and the new schema
/// holds every type of the original, in order, followed by the added one.
pub proof fn lemma_add_keeps_types<'a>(s1: Schema<'a>, t: SchemaType<'a>, s2: Schema<'a>)
    requires
        s2.spec_types() == s1.spec_types().push(t),
    ensures
        s2.spec_types().len() == s1.spec_types().len() + 1,
        forall|i: int| 0 <= i < s1.spec_types().len() ==> s2.spec_types()[i] == s1.spec_types()[i],
        s2.spec_types().last() == t,
        s2.spec_types().contains(t),
        forall|x: SchemaType<'a>| s1.spec_types().contains(x) ==> s2.spec_types().contains(x),
{
    assert(s2.spec_types()[s1.spec_types().len() as int] == t);
    assert forall|x: SchemaType<'a>| s1.spec_types().contains(x) implies s2.spec_types().contains(x) by {
        let i = choose|i: int| 0 <= i < s1.spec_types().len() && s1.spec_types()[i] == x;
        assert(s2.spec_types()[i] == x);
    }
}

/// A fresh vector with the same items.
fn copy_all<T: Copy>(v: &Vec<T>) -> (r: Vec<T>)
    ensures
        r@ == v@,
{
    let mut r: Vec<T> = Vec::with_capacity(v.len());
    let mut i: usize = 0;
    while i < v.len()
        invariant
            i <= v@.len(),
            r@ == v@.subrange(0, i as int),
        decreases v@.len() - i,
    {
        r.push(v[i]);
        assert(r@ =~= v@.subrange(0, i + 1));
        i = i + 1;
    }
    assert(r@ =~= v@);
    r
}

} // verus!
