use ixc_schema::schema::{
    compare_bytes, EnumType, EnumVariant, Field, MessageDescriptor, OneOfCase, OneOfType, Schema,
    SchemaType, StateObjectType, StructType,
};
use std::cmp::Ordering;

const FIELDS: [Field<'static>; 1] = [Field { name: "id", kind_name: "u32", nullable: false }];
const VARIANTS: [EnumVariant<'static>; 2] =
    [EnumVariant { name: "Red", discriminant: 0 }, EnumVariant { name: "Blue", discriminant: 1 }];
const CASES: [OneOfCase<'static>; 1] = [OneOfCase { name: "Num", discriminant: 0, kind_name: "u64" }];

fn record(name: &'static str) -> SchemaType<'static> {
    SchemaType::Struct(StructType { name, fields: &FIELDS })
}

#[test]
fn name_of_every_kind() {
    assert_eq!(record("Account").name(), "Account");
    assert_eq!(SchemaType::Enum(EnumType { name: "Color", variants: &VARIANTS }).name(), "Color");
    assert_eq!(SchemaType::OneOf(OneOfType { name: "Choice", cases: &CASES }).name(), "Choice");
    let state = StateObjectType { name: "Balance", key_fields: &FIELDS, value_fields: &[], retained: false };
    assert_eq!(SchemaType::StateObjectType(state).name(), "Balance");
}

#[test]
fn order_is_by_name_only() {
    let a = record("Alpha");
    let b = SchemaType::Enum(EnumType { name: "Beta", variants: &VARIANTS });
    assert!(a < b);
    assert!(b > a);
    assert_eq!(a.cmp(&b), Ordering::Less);
    let same = SchemaType::OneOf(OneOfType { name: "Alpha", cases: &CASES });
    assert_eq!(a.partial_cmp(&same), Some(Ordering::Equal));
    assert_ne!(a, same);
    assert_eq!(record("ab").cmp(&record("abc")), Ordering::Less);
    assert_eq!(record("b").cmp(&record("abc")), Ordering::Greater);
}

#[test]
fn compare_bytes_is_lexicographic() {
    assert_eq!(compare_bytes(b"", b""), Ordering::Equal);
    assert_eq!(compare_bytes(b"", b"a"), Ordering::Less);
    assert_eq!(compare_bytes(b"b", b"a"), Ordering::Greater);
    assert_eq!(compare_bytes(b"abc", b"abd"), Ordering::Less);
}

#[test]
fn sorting_by_order_is_deterministic() {
    let mut types = vec![record("c"), record("a"), record("b")];
    types.sort_by(|x, y| x.cmp(y));
    let names: Vec<&str> = types.iter().map(|t| t.name()).collect();
    assert_eq!(names, vec!["a", "b", "c"]);
}

#[test]
fn add_leaves_original_unchanged() {
    let s0: Schema<'static> = Schema::new();
    let s1 = s0.add(record("A"));
    let s2 = s1.add(record("B"));
    assert!(s0.types().is_empty());
    assert_eq!(s1.types().len(), 1);
    assert_eq!(s1.types()[0].name(), "A");
    assert_eq!(s2.types().len(), 2);
    assert_eq!(s2.types()[0].name(), "A");
    assert_eq!(s2.types()[1].name(), "B");
    let s3 = s2.add_message(MessageDescriptor { name: "Send" });
    assert!(s2.messages().is_empty());
    assert_eq!(s3.messages()[0].name, "Send");
    assert_eq!(s3.types().len(), 2);
}

#[test]
fn sorted_types_orders_by_name_and_keeps_ties() {
    let first_a = record("a");
    let second_a = SchemaType::Enum(EnumType { name: "a", variants: &VARIANTS });
    let schema = Schema::new().add(record("c")).add(first_a).add(record("b")).add(second_a);
    let sorted = schema.sorted_types();
    let names: Vec<&str> = sorted.iter().map(|t| t.name()).collect();
    assert_eq!(names, vec!["a", "a", "b", "c"]);
    assert_eq!(sorted[0], first_a);
    assert_eq!(sorted[1], second_a);
    assert_eq!(schema.types()[0].name(), "c");
    assert!(Schema::new().sorted_types().is_empty());
}
