//! The Rex type language: representation, simplification, assignability,
//! property resolution and display.

use vstd::prelude::*;
use crate::text::{push_char, push_str, str_eq};


verus! {

/// A Rex type. All object/map forms are unified into `Object`.
///
/// `SomeType` is the top of all existing values (`some`) and `NoneType` is
/// the absent value (`none`).
#[derive(Debug, PartialEq)]
pub enum Type {
    SomeType,
    NoneType,
    Never,
    Null,
    Bool,
    Int,
    Num,
    Str,
    LiteralStr(String),
    Array(Box<Type>),
    Object { fields: Vec<(String, Type)>, wildcard: Option<Box<Type>> },
    Union(Vec<Type>),
    Intersection(Vec<Type>),
    Ref(String),
}

/// The mathematical model of a [`Type`]: strings become character sequences
/// and vectors become sequences.
pub enum TypeV {
    SomeType,
    NoneType,
    Never,
    Null,
    Bool,
    Int,
    Num,
    Str,
    LiteralStr(Seq<char>),
    Array(Box<TypeV>),
    Object { fields: Seq<(Seq<char>, TypeV)>, wildcard: Option<Box<TypeV>> },
    Union(Seq<TypeV>),
    Intersection(Seq<TypeV>),
    Ref(Seq<char>),
}

pub open spec fn view_type(t: Type) -> TypeV
    decreases t,
{
    match t {
        Type::SomeType => TypeV::SomeType,
        Type::NoneType => TypeV::NoneType,
        Type::Never => TypeV::Never,
        Type::Null => TypeV::Null,
        Type::Bool => TypeV::Bool,
        Type::Int => TypeV::Int,
        Type::Num => TypeV::Num,
        Type::Str => TypeV::Str,
        Type::LiteralStr(s) => TypeV::LiteralStr(s@),
        Type::Array(b) => TypeV::Array(Box::new(view_type(*b))),
        Type::Object { fields, wildcard } => TypeV::Object {
            fields: Seq::new(
                fields@.len(),
                |i: int|
                    if 0 <= i < fields@.len() {
                        (fields@[i].0@, view_type(fields@[i].1))
                    } else {
                        (Seq::empty(), TypeV::Never)
                    },
            ),
            wildcard: match wildcard {
                Option::Some(w) => Option::Some(Box::new(view_type(*w))),
                Option::None => Option::None,
            },
        },
        Type::Union(ts) => TypeV::Union(
            Seq::new(ts@.len(), |i: int| if 0 <= i < ts@.len() { view_type(ts@[i]) } else { TypeV::Never }),
        ),
        Type::Intersection(ts) => TypeV::Intersection(
            Seq::new(ts@.len(), |i: int| if 0 <= i < ts@.len() { view_type(ts@[i]) } else { TypeV::Never }),
        ),
        Type::Ref(s) => TypeV::Ref(s@),
    }
}

impl View for Type {
    type V = TypeV;

    open spec fn view(&self) -> TypeV {
        view_type(*self)
    }
}


// ── Model-level definitions ─────────────────────────────────────────────

/// `some | none`: the type of a value about which nothing is known.
pub open spec fn unknown_v() -> TypeV {
    TypeV::Union(seq![TypeV::SomeType, TypeV::NoneType])
}

/// Whether a value of this type may be `none`.
pub open spec fn contains_none_v(t: TypeV) -> bool
    decreases t,
{
    match t {
        TypeV::NoneType => true,
        TypeV::Union(ts) => exists|i: int| 0 <= i < ts.len() && contains_none_v(#[trigger] ts[i]),
        TypeV::Intersection(ts) => forall|i: int|
            0 <= i < ts.len() ==> contains_none_v(#[trigger] ts[i]),
        _ => false,
    }
}

/// The members of `s` that are not `none`, in order.
pub open spec fn drop_nones(s: Seq<TypeV>) -> Seq<TypeV>
    decreases s.len(),
{
    if s.len() == 0 {
        s
    } else {
        let r = drop_nones(s.drop_last());
        if s.last() is NoneType {
            r
        } else {
            r.push(s.last())
        }
    }
}

/// A union of the given members: `never` when empty, the member itself when alone.
pub open spec fn collapse_union(s: Seq<TypeV>) -> TypeV {
    if s.len() == 0 {
        TypeV::Never
    } else if s.len() == 1 {
        s[0]
    } else {
        TypeV::Union(s)
    }
}

/// The type with `none` taken out (existence narrowing).
pub open spec fn remove_none_v(t: TypeV) -> TypeV {
    match t {
        TypeV::NoneType => TypeV::Never,
        TypeV::Union(ts) => collapse_union(drop_nones(ts)),
        _ => t,
    }
}

/// The type with `none` added, unless it may already be `none`.
pub open spec fn add_none_v(t: TypeV) -> TypeV {
    if contains_none_v(t) {
        t
    } else {
        match t {
            TypeV::Union(ts) => TypeV::Union(ts.push(TypeV::NoneType)),
            _ => TypeV::Union(seq![t, TypeV::NoneType]),
        }
    }
}

/// Members of nested unions lifted one level, in order.
pub open spec fn flatten_unions(s: Seq<TypeV>) -> Seq<TypeV>
    decreases s.len(),
{
    if s.len() == 0 {
        s
    } else {
        let r = flatten_unions(s.drop_last());
        match s.last() {
            TypeV::Union(inner) => r + inner,
            other => r.push(other),
        }
    }
}

/// Members of nested intersections lifted one level, in order.
pub open spec fn flatten_intersections(s: Seq<TypeV>) -> Seq<TypeV>
    decreases s.len(),
{
    if s.len() == 0 {
        s
    } else {
        let r = flatten_intersections(s.drop_last());
        match s.last() {
            TypeV::Intersection(inner) => r + inner,
            other => r.push(other),
        }
    }
}

/// The first occurrence of every member, in order.
pub open spec fn dedup(s: Seq<TypeV>) -> Seq<TypeV>
    decreases s.len(),
{
    if s.len() == 0 {
        s
    } else {
        let r = dedup(s.drop_last());
        if r.contains(s.last()) {
            r
        } else {
            r.push(s.last())
        }
    }
}

/// Whether `some` absorbs nothing of this member (`some`, `none` and `never` survive it).
pub open spec fn survives_some(t: TypeV) -> bool {
    t is SomeType || t is NoneType || t is Never
}

/// The members that `some` does not absorb.
pub open spec fn keep_survivors(s: Seq<TypeV>) -> Seq<TypeV>
    decreases s.len(),
{
    if s.len() == 0 {
        s
    } else {
        let r = keep_survivors(s.drop_last());
        if survives_some(s.last()) {
            r.push(s.last())
        } else {
            r
        }
    }
}

/// Every member simplified, in order.
pub open spec fn simplify_all(ts: Seq<TypeV>) -> Seq<TypeV>
    decreases ts,
{
    if ts.len() == 0 {
        Seq::empty()
    } else {
        proof {
            assert(decreases_to!(ts => ts.drop_last()));
        }
        simplify_all(ts.drop_last()).push(simplify_v(ts.last()))
    }
}

/// The simplified form of a type: nested unions (intersections) flattened,
/// duplicates removed, `some` absorbing the concrete members of a union, and
/// one-member forms collapsed. Other types are left as they are.
pub open spec fn simplify_v(t: TypeV) -> TypeV
    decreases t,
{
    match t {
        TypeV::Union(ts) => {
            let seen = dedup(flatten_unions(simplify_all(ts)));
            collapse_union(if seen.contains(TypeV::SomeType) { keep_survivors(seen) } else { seen })
        },
        TypeV::Intersection(ts) => {
            let seen = dedup(flatten_intersections(simplify_all(ts)));
            if seen.len() == 0 {
                TypeV::SomeType
            } else if seen.len() == 1 {
                seen[0]
            } else {
                TypeV::Intersection(seen)
            }
        },
        _ => t,
    }
}

/// Index of the first field named `key` at or after `i`, or -1.
pub open spec fn key_index_from(fs: Seq<(Seq<char>, TypeV)>, key: Seq<char>, i: int) -> int
    decreases fs.len() - i,
{
    if i < 0 || i >= fs.len() {
        -1
    } else if fs[i].0 == key {
        i
    } else {
        key_index_from(fs, key, i + 1)
    }
}

/// Index of the first field named `key`, or -1 when there is none.
pub open spec fn key_index(fs: Seq<(Seq<char>, TypeV)>, key: Seq<char>) -> int {
    key_index_from(fs, key, 0)
}

/// Whether the union `t` is exactly `some | none` in some order.
pub open spec fn is_unknown_v(t: TypeV) -> bool {
    t matches TypeV::Union(ts) && ts.len() == 2 && ts.contains(TypeV::SomeType) && ts.contains(
        TypeV::NoneType,
    )
}

/// Whether `s` is `none` or a union with a `none` member.
pub open spec fn none_at_top_v(s: TypeV) -> bool {
    s is NoneType || (s matches TypeV::Union(ts) && ts.contains(TypeV::NoneType))
}

/// Assignability of `s` to `t`, rule by rule in the order they are tried:
/// equal types; `never` to anything; anything to `some | none`; anything
/// but `none` (or a union holding it) to `some`; `int` to `num`; a literal
/// string to `str`; to a union when to some member; from a union when every
/// member is; from an intersection when some member is; to an intersection
/// when to every member; arrays covariantly; and objects structurally.
pub open spec fn assignable_v(s: TypeV, t: TypeV) -> bool
    decreases s, t,
{
    if s == t {
        true
    } else if s is Never {
        true
    } else if is_unknown_v(t) {
        true
    } else if t is SomeType {
        !none_at_top_v(s)
    } else if s is Int && t is Num {
        true
    } else if s is LiteralStr && t is Str {
        true
    } else if t is Union {
        match t {
            TypeV::Union(ts) => exists|i: int| 0 <= i < ts.len() && assignable_v(s, #[trigger] ts[i]),
            _ => false,
        }
    } else if s is Union {
        match s {
            TypeV::Union(ss) => forall|i: int| 0 <= i < ss.len() ==> assignable_v(#[trigger] ss[i], t),
            _ => false,
        }
    } else if s is Intersection {
        match s {
            TypeV::Intersection(ss) => exists|i: int|
                0 <= i < ss.len() && assignable_v(#[trigger] ss[i], t),
            _ => false,
        }
    } else if t is Intersection {
        match t {
            TypeV::Intersection(ts) => forall|i: int|
                0 <= i < ts.len() ==> assignable_v(s, #[trigger] ts[i]),
            _ => false,
        }
    } else {
        match (s, t) {
            (TypeV::Array(a), TypeV::Array(b)) => assignable_v(*a, *b),
            (
                TypeV::Object { fields: sf, wildcard: sw },
                TypeV::Object { fields: tf, wildcard: tw },
            ) => {
                &&& forall|j: int|
                    0 <= j < tf.len() ==> {
                        let idx = key_index(sf, (#[trigger] tf[j]).0);
                        if 0 <= idx < sf.len() {
                            assignable_v(sf[idx].1, tf[j].1)
                        } else {
                            match sw {
                                Option::Some(w) => assignable_v(*w, tf[j].1),
                                Option::None => false,
                            }
                        }
                    }
                &&& (sw is None && tw is Some) ==> match tw {
                    Option::Some(w) => forall|i: int|
                        0 <= i < sf.len() ==> assignable_v((#[trigger] sf[i]).1, *w),
                    Option::None => true,
                }
            },
            _ => false,
        }
    }
}

/// Whether this type is numeric (`int`, `num`, or an intersection with one).
pub open spec fn is_numeric_v(t: TypeV) -> bool
    decreases t,
{
    match t {
        TypeV::Int | TypeV::Num => true,
        TypeV::Intersection(ts) => exists|i: int| 0 <= i < ts.len() && is_numeric_v(#[trigger] ts[i]),
        _ => false,
    }
}

/// Whether this type is a string (`str`, a literal, or an intersection with one).
pub open spec fn is_string_v(t: TypeV) -> bool
    decreases t,
{
    match t {
        TypeV::Str | TypeV::LiteralStr(_) => true,
        TypeV::Intersection(ts) => exists|i: int| 0 <= i < ts.len() && is_string_v(#[trigger] ts[i]),
        _ => false,
    }
}

/// `parts` joined by `sep`.
pub open spec fn join_v(parts: Seq<Seq<char>>, sep: Seq<char>) -> Seq<char>
    decreases parts.len(),
{
    if parts.len() == 0 {
        Seq::empty()
    } else if parts.len() == 1 {
        parts[0]
    } else {
        join_v(parts.drop_last(), sep) + sep + parts.last()
    }
}

/// Every member rendered, in order.
pub open spec fn display_all(ts: Seq<TypeV>) -> Seq<Seq<char>>
    decreases ts,
{
    if ts.len() == 0 {
        Seq::empty()
    } else {
        proof {
            assert(decreases_to!(ts => ts.drop_last()));
        }
        display_all(ts.drop_last()).push(display_v(ts.last()))
    }
}

/// Every field rendered as `key: type`, in order.
pub open spec fn display_fields(fs: Seq<(Seq<char>, TypeV)>) -> Seq<Seq<char>>
    decreases fs,
{
    if fs.len() == 0 {
        Seq::empty()
    } else {
        proof {
            assert(decreases_to!(fs => fs.drop_last()));
        }
        display_fields(fs.drop_last()).push(fs.last().0 + ": "@ + display_v(fs.last().1))
    }
}

/// Joining one more part appends the separator and the part.
pub proof fn lemma_join_push(parts: Seq<Seq<char>>, sep: Seq<char>, x: Seq<char>)
    ensures
        join_v(parts.push(x), sep) == (if parts.len() == 0 {
            x
        } else {
            join_v(parts, sep) + sep + x
        }),
{
    assert(parts.push(x).drop_last() =~= parts);
}

/// The human-readable rendering of a type.
pub open spec fn display_v(t: TypeV) -> Seq<char>
    decreases t,
{
    match t {
        TypeV::SomeType => "some"@,
        TypeV::NoneType => "none"@,
        TypeV::Never => "never"@,
        TypeV::Null => "null"@,
        TypeV::Bool => "bool"@,
        TypeV::Int => "int"@,
        TypeV::Num => "num"@,
        TypeV::Str => "str"@,
        TypeV::LiteralStr(s) => seq!['"'] + s + seq!['"'],
        TypeV::Array(e) => seq!['['] + display_v(*e) + seq![']'],
        TypeV::Object { fields, wildcard } => {
            let fp = display_fields(fields);
            let parts = match wildcard {
                Option::Some(w) => fp.push("*: "@ + display_v(*w)),
                Option::None => fp,
            };
            if parts.len() == 0 {
                "{}"@
            } else {
                "{ "@ + join_v(parts, " "@) + " }"@
            }
        },
        TypeV::Union(ts) => join_v(display_all(ts), " | "@),
        TypeV::Intersection(ts) => join_v(display_all(ts), " & "@),
        TypeV::Ref(n) => n,
    }
}

/// A union with a member that may be `none` may be `none`; an intersection
/// with a member that cannot be `none` cannot be.
pub proof fn lemma_contains_none_member(s: Seq<TypeV>, i: int)
    requires
        0 <= i < s.len(),
    ensures
        contains_none_v(s[i]) ==> contains_none_v(TypeV::Union(s)),
        !contains_none_v(s[i]) ==> !contains_none_v(TypeV::Intersection(s)),
{
    let u = TypeV::Union(s);
    let n = TypeV::Intersection(s);
    assert(u matches TypeV::Union(ts) && ts == s);
    assert(n matches TypeV::Intersection(ts) && ts == s);
    assert(contains_none_v(TypeV::Union(s)) == (exists|j: int|
        0 <= j < s.len() && contains_none_v(#[trigger] s[j])));
    assert(contains_none_v(TypeV::Intersection(s)) == (forall|j: int|
        0 <= j < s.len() ==> contains_none_v(#[trigger] s[j])));
}


/// The model of a [`PropertyResult`].
pub enum PropertyResultV {
    Known(TypeV),
    Wildcard(TypeV),
    Unknown,
    UnknownInBranch(TypeV),
}

/// The type that a property access yields: `none` where the property is unknown.
pub open spec fn result_type_v(r: PropertyResultV) -> TypeV {
    match r {
        PropertyResultV::Known(t) => t,
        PropertyResultV::Wildcard(t) => t,
        PropertyResultV::UnknownInBranch(t) => t,
        PropertyResultV::Unknown => TypeV::NoneType,
    }
}

/// The result types of a sequence of property results, in order.
pub open spec fn result_types(rs: Seq<PropertyResultV>) -> Seq<TypeV>
    decreases rs.len(),
{
    if rs.len() == 0 {
        Seq::empty()
    } else {
        result_types(rs.drop_last()).push(result_type_v(rs.last()))
    }
}

/// Whether a result found the property (directly or through a wildcard).
pub open spec fn is_found_v(r: PropertyResultV) -> bool {
    r is Known || r is Wildcard
}

/// Index of the first found result at or after `i`, or -1.
pub open spec fn first_found_from(rs: Seq<PropertyResultV>, i: int) -> int
    decreases rs.len() - i,
{
    if i < 0 || i >= rs.len() {
        -1
    } else if is_found_v(rs[i]) {
        i
    } else {
        first_found_from(rs, i + 1)
    }
}

/// The property resolved on every member, in order.
pub open spec fn resolve_all(ts: Seq<TypeV>, key: Seq<char>) -> Seq<PropertyResultV>
    decreases ts,
{
    if ts.len() == 0 {
        Seq::empty()
    } else {
        proof {
            assert(decreases_to!(ts => ts.drop_last()));
        }
        resolve_all(ts.drop_last(), key).push(resolve_v(ts.last(), key))
    }
}

/// The result of accessing property `key` on a value of type `t`.
///
/// On an object: the first field of that name, else the wildcard type with
/// `none` added, else unknown. On an array: `int` for `size`, else the
/// element type with `none` added. On a union: the simplified union of the
/// members' results, flagged when some member does not know the property.
/// On an intersection: the first member's found result.
pub open spec fn resolve_v(t: TypeV, key: Seq<char>) -> PropertyResultV
    decreases t,
{
    match t {
        TypeV::Object { fields, wildcard } => {
            let idx = key_index(fields, key);
            if 0 <= idx < fields.len() {
                PropertyResultV::Known(fields[idx].1)
            } else {
                match wildcard {
                    Option::Some(w) => PropertyResultV::Wildcard(add_none_v(*w)),
                    Option::None => PropertyResultV::Unknown,
                }
            }
        },
        TypeV::Array(e) => if key == "size"@ {
            PropertyResultV::Known(TypeV::Int)
        } else {
            PropertyResultV::Known(add_none_v(*e))
        },
        TypeV::SomeType => PropertyResultV::Known(unknown_v()),
        TypeV::NoneType => PropertyResultV::Known(TypeV::NoneType),
        TypeV::Never => PropertyResultV::Known(TypeV::Never),
        TypeV::Union(ts) => {
            let rs = resolve_all(ts, key);
            let combined = simplify_v(TypeV::Union(result_types(rs)));
            if exists|i: int| 0 <= i < rs.len() && !is_found_v(#[trigger] rs[i]) {
                PropertyResultV::UnknownInBranch(combined)
            } else {
                PropertyResultV::Known(combined)
            }
        },
        TypeV::Intersection(ts) => {
            let rs = resolve_all(ts, key);
            let idx = first_found_from(rs, 0);
            if 0 <= idx < rs.len() {
                rs[idx]
            } else {
                PropertyResultV::Unknown
            }
        },
        _ => PropertyResultV::Unknown,
    }
}

/// The return type of a built-in method on a value of type `t`, if `m` is one.
pub open spec fn builtin_method_v(t: TypeV, m: Seq<char>) -> Option<TypeV> {
    match t {
        TypeV::Array(e) => if m == "push"@ || m == "slice"@ {
            Option::Some(t)
        } else if m == "pop"@ || m == "contains"@ {
            Option::Some(TypeV::Union(seq![*e, TypeV::NoneType]))
        } else if m == "join"@ {
            Option::Some(TypeV::Str)
        } else if m == "indexOf"@ {
            Option::Some(TypeV::Union(seq![TypeV::Int, TypeV::NoneType]))
        } else {
            Option::None
        },
        TypeV::Str => if m == "split"@ {
            Option::Some(TypeV::Array(Box::new(TypeV::Str)))
        } else if m == "trim"@ || m == "upper"@ || m == "lower"@ || m == "replace"@ || m
            == "slice"@ {
            Option::Some(TypeV::Str)
        } else if m == "indexOf"@ {
            Option::Some(TypeV::Union(seq![TypeV::Int, TypeV::NoneType]))
        } else if m == "contains"@ || m == "starts-with"@ || m == "ends-with"@ {
            Option::Some(TypeV::Union(seq![TypeV::Str, TypeV::NoneType]))
        } else {
            Option::None
        },
        TypeV::SomeType | TypeV::Union(_) => if m == "indexOf"@ {
            Option::Some(TypeV::Union(seq![TypeV::Int, TypeV::NoneType]))
        } else if m == "push"@ || m == "slice"@ || m == "pop"@ || m == "join"@ || m == "trim"@
            || m == "upper"@ || m == "lower"@ || m == "replace"@ || m == "split"@ || m
            == "contains"@ || m == "starts-with"@ || m == "ends-with"@ {
            Option::Some(TypeV::SomeType)
        } else {
            Option::None
        },
        _ => Option::None,
    }
}

/// The models of a vector of types.
pub open spec fn views(ts: Seq<Type>) -> Seq<TypeV> {
    Seq::new(ts.len(), |i: int| ts[i]@)
}

/// The model of an object's field list.
pub open spec fn field_views(fs: Seq<(String, Type)>) -> Seq<(Seq<char>, TypeV)> {
    Seq::new(fs.len(), |i: int| (fs[i].0@, fs[i].1@))
}

pub open spec fn wildcard_view(w: Option<Box<Type>>) -> Option<Box<TypeV>> {
    match w {
        Option::Some(b) => Option::Some(Box::new((*b)@)),
        Option::None => Option::None,
    }
}

/// How a union and an intersection are viewed, stated over `views`.
pub proof fn lemma_view_shapes(t: Type)
    ensures
        t matches Type::Union(ts) ==> t@ == TypeV::Union(views(ts@)),
        t matches Type::Intersection(ts) ==> t@ == TypeV::Intersection(views(ts@)),
        t matches Type::Object { fields, wildcard } ==> t@ == (TypeV::Object {
            fields: field_views(fields@),
            wildcard: wildcard_view(wildcard),
        }),
{
    match t {
        Type::Union(ts) => {
            assert(t@ == TypeV::Union(views(ts@))) by {
                if let TypeV::Union(s) = t@ {
                    assert(s =~= views(ts@));
                }
            }
        },
        Type::Intersection(ts) => {
            if let TypeV::Intersection(s) = t@ {
                assert(s =~= views(ts@));
            }
        },
        Type::Object { fields, wildcard } => {
            if let TypeV::Object { fields: fv, wildcard: wv } = t@ {
                assert(fv =~= field_views(fields@));
            }
        },
        _ => {},
    }
}

/// Structural equality of two types, decided on their models.
pub fn type_eq(a: &Type, b: &Type) -> (r: bool)
    ensures
        r == (a@ == b@),
    decreases a,
{
    proof {
        lemma_view_shapes(*a);
        lemma_view_shapes(*b);
    }
    match (a, b) {
        (Type::SomeType, Type::SomeType) => true,
        (Type::NoneType, Type::NoneType) => true,
        (Type::Never, Type::Never) => true,
        (Type::Null, Type::Null) => true,
        (Type::Bool, Type::Bool) => true,
        (Type::Int, Type::Int) => true,
        (Type::Num, Type::Num) => true,
        (Type::Str, Type::Str) => true,
        (Type::LiteralStr(x), Type::LiteralStr(y)) => *x == *y,
        (Type::Ref(x), Type::Ref(y)) => *x == *y,
        (Type::Array(x), Type::Array(y)) => type_eq(x, y),
        (Type::Union(xs), Type::Union(ys)) => types_eq(xs, ys),
        (Type::Intersection(xs), Type::Intersection(ys)) => types_eq(xs, ys),
        (Type::Object { fields: fx, wildcard: wx }, Type::Object { fields: fy, wildcard: wy }) => {
            let f = fields_eq(fx, fy);
            if !f {
                return false;
            }
            match (wx, wy) {
                (Option::None, Option::None) => true,
                (Option::Some(x), Option::Some(y)) => {
                    let r = type_eq(x, y);
                    proof {
                        if !r {
                            assert(wildcard_view(*wx) != wildcard_view(*wy));
                        }
                    }
                    r
                },
                _ => false,
            }
        },
        _ => {
            assert(a@ != b@);
            false
        },
    }
}

/// Element-wise equality of two vectors of types.
pub fn types_eq(xs: &Vec<Type>, ys: &Vec<Type>) -> (r: bool)
    ensures
        r == (views(xs@) == views(ys@)),
    decreases xs,
{
    if xs.len() != ys.len() {
        proof {
            assert(views(xs@).len() != views(ys@).len());
        }
        return false;
    }
    let mut i: usize = 0;
    while i < xs.len()
        invariant
            xs@.len() == ys@.len(),
            0 <= i <= xs@.len(),
            forall|j: int| 0 <= j < i ==> xs@[j]@ == ys@[j]@,
        decreases xs@.len() - i,
    {
        proof {
            assert(decreases_to!(xs => xs@));
            assert(decreases_to!(xs@ => xs@[i as int]));
        }
        if !type_eq(&xs[i], &ys[i]) {
            proof {
                assert(views(xs@)[i as int] != views(ys@)[i as int]);
            }
            return false;
        }
        i += 1;
    }
    proof {
        assert(views(xs@) =~= views(ys@));
    }
    true
}

/// Element-wise equality of two field lists (keys and types).
pub fn fields_eq(xs: &Vec<(String, Type)>, ys: &Vec<(String, Type)>) -> (r: bool)
    ensures
        r == (field_views(xs@) == field_views(ys@)),
    decreases xs,
{
    if xs.len() != ys.len() {
        proof {
            assert(field_views(xs@).len() != field_views(ys@).len());
        }
        return false;
    }
    let mut i: usize = 0;
    while i < xs.len()
        invariant
            xs@.len() == ys@.len(),
            0 <= i <= xs@.len(),
            forall|j: int| 0 <= j < i ==> xs@[j].0@ == ys@[j].0@ && xs@[j].1@ == ys@[j].1@,
        decreases xs@.len() - i,
    {
        proof {
            assert(decreases_to!(xs => xs@));
            assert(decreases_to!(xs@ => xs@[i as int]));
            assert(decreases_to!(xs@[i as int] => xs@[i as int].1));
        }
        let same_key = xs[i].0.eq(&ys[i].0);
        if !same_key || !type_eq(&xs[i].1, &ys[i].1) {
            proof {
                assert(field_views(xs@)[i as int] != field_views(ys@)[i as int]);
            }
            return false;
        }
        i += 1;
    }
    proof {
        assert(field_views(xs@) =~= field_views(ys@));
    }
    true
}


impl Type {
    /// A copy of this type with the same model.
    pub fn deep_clone(&self) -> (r: Type)
        ensures
            r@ == self@,
        decreases self,
    {
        proof {
            lemma_view_shapes(*self);
        }
        match self {
            Type::SomeType => Type::SomeType,
            Type::NoneType => Type::NoneType,
            Type::Never => Type::Never,
            Type::Null => Type::Null,
            Type::Bool => Type::Bool,
            Type::Int => Type::Int,
            Type::Num => Type::Num,
            Type::Str => Type::Str,
            Type::LiteralStr(s) => Type::LiteralStr(s.clone()),
            Type::Ref(s) => Type::Ref(s.clone()),
            Type::Array(b) => Type::Array(Box::new(b.deep_clone())),
            Type::Union(ts) => {
                let r = clone_types(ts);
                proof {
                    lemma_view_shapes(Type::Union(r));
                }
                Type::Union(r)
            },
            Type::Intersection(ts) => {
                let r = clone_types(ts);
                proof {
                    lemma_view_shapes(Type::Intersection(r));
                }
                Type::Intersection(r)
            },
            Type::Object { fields, wildcard } => {
                let f = clone_fields(fields);
                let w = match wildcard {
                    Option::Some(b) => Option::Some(Box::new(b.deep_clone())),
                    Option::None => Option::None,
                };
                proof {
                    lemma_view_shapes(Type::Object { fields: f, wildcard: w });
                }
                Type::Object { fields: f, wildcard: w }
            },
        }
    }
}

/// Copies of every type in a vector, with the same models.
pub fn clone_types(ts: &Vec<Type>) -> (r: Vec<Type>)
    ensures
        views(r@) == views(ts@),
    decreases ts,
{
    let mut out: Vec<Type> = Vec::new();
    let mut i: usize = 0;
    while i < ts.len()
        invariant
            0 <= i <= ts@.len(),
            out@.len() == i,
            forall|j: int| 0 <= j < i ==> out@[j]@ == ts@[j]@,
        decreases ts@.len() - i,
    {
        proof {
            assert(decreases_to!(ts => ts@));
            assert(decreases_to!(ts@ => ts@[i as int]));
        }
        let c = ts[i].deep_clone();
        out.push(c);
        i += 1;
    }
    proof {
        assert(views(out@) =~= views(ts@));
    }
    out
}

/// Copies of every field of an object type, with the same models.
pub fn clone_fields(fs: &Vec<(String, Type)>) -> (r: Vec<(String, Type)>)
    ensures
        field_views(r@) == field_views(fs@),
    decreases fs,
{
    let mut out: Vec<(String, Type)> = Vec::new();
    let mut i: usize = 0;
    while i < fs.len()
        invariant
            0 <= i <= fs@.len(),
            out@.len() == i,
            forall|j: int| 0 <= j < i ==> out@[j].0@ == fs@[j].0@ && out@[j].1@ == fs@[j].1@,
        decreases fs@.len() - i,
    {
        proof {
            assert(decreases_to!(fs => fs@));
            assert(decreases_to!(fs@ => fs@[i as int]));
            assert(decreases_to!(fs@[i as int] => fs@[i as int].1));
        }
        let k = fs[i].0.clone();
        let t = fs[i].1.deep_clone();
        out.push((k, t));
        i += 1;
    }
    proof {
        assert(field_views(out@) =~= field_views(fs@));
    }
    out
}


impl Type {
    /// `some | none`.
    pub fn unknown() -> (r: Type)
        ensures
            r@ == unknown_v(),
    {
        let r = Type::Union(vec![Type::SomeType, Type::NoneType]);
        proof {
            lemma_view_shapes(r);
            assert(views(r->Union_0@) =~= seq![TypeV::SomeType, TypeV::NoneType]);
        }
        r
    }

    pub fn is_none(&self) -> (r: bool)
        ensures
            r == (self@ is NoneType),
    {
        match self {
            Type::NoneType => true,
            _ => false,
        }
    }

    /// Whether a value of this type may be `none`.
    #[verifier::loop_isolation(false)]
    pub fn contains_none(&self) -> (r: bool)
        ensures
            r == contains_none_v(self@),
        decreases self,
    {
        proof {
            lemma_view_shapes(*self);
        }
        match self {
            Type::NoneType => true,
            Type::Union(ts) => {
                let mut i: usize = 0;
                while i < ts.len()
                    invariant
                        0 <= i <= ts@.len(),
                        self@ == TypeV::Union(views(ts@)),
                        forall|j: int| 0 <= j < i ==> !contains_none_v(#[trigger] views(ts@)[j]),
                    decreases ts@.len() - i,
                {
                    proof {
                        assert(decreases_to!(ts@ => ts@[i as int]));
                    }
                    if ts[i].contains_none() {
                        proof {
                            assert(contains_none_v(views(ts@)[i as int]));
                            lemma_contains_none_member(views(ts@), i as int);
                        }
                        return true;
                    }
                    i += 1;
                }
                false
            },
            Type::Intersection(ts) => {
                let mut i: usize = 0;
                while i < ts.len()
                    invariant
                        0 <= i <= ts@.len(),
                        self@ == TypeV::Intersection(views(ts@)),
                        forall|j: int| 0 <= j < i ==> contains_none_v(#[trigger] views(ts@)[j]),
                    decreases ts@.len() - i,
                {
                    proof {
                        assert(decreases_to!(ts@ => ts@[i as int]));
                    }
                    if !ts[i].contains_none() {
                        proof {
                            assert(!contains_none_v(views(ts@)[i as int]));
                            lemma_contains_none_member(views(ts@), i as int);
                        }
                        return false;
                    }
                    i += 1;
                }
                true
            },
            _ => false,
        }
    }

    /// Remove `none` from a type (for existence narrowing).
    pub fn remove_none(&self) -> (r: Type)
        ensures
            r@ == remove_none_v(self@),
    {
        proof {
            lemma_view_shapes(*self);
        }
        match self {
            Type::NoneType => Type::Never,
            Type::Union(types) => {
                let filtered = without_nones(types);
                collapse(filtered)
            },
            _ => self.deep_clone(),
        }
    }

    /// Add `none` to a type if not already present.
    pub fn add_none(&self) -> (r: Type)
        ensures
            r@ == add_none_v(self@),
    {
        if self.contains_none() {
            return self.deep_clone();
        }
        proof {
            lemma_view_shapes(*self);
        }
        match self {
            Type::Union(types) => {
                let mut types = clone_types(types);
                let ghost before = types@;
                types.push(Type::NoneType);
                let r = Type::Union(types);
                proof {
                    lemma_view_shapes(r);
                    assert(views(types@) =~= views(before).push(TypeV::NoneType));
                }
                r
            },
            _ => {
                let r = Type::Union(vec![self.deep_clone(), Type::NoneType]);
                proof {
                    lemma_view_shapes(r);
                    assert(views(r->Union_0@) =~= seq![self@, TypeV::NoneType]);
                }
                r
            },
        }
    }
}

/// Copies of the members that are not `none`, in order.
pub fn without_nones(ts: &Vec<Type>) -> (r: Vec<Type>)
    ensures
        views(r@) == drop_nones(views(ts@)),
{
    let mut out: Vec<Type> = Vec::new();
    let mut i: usize = 0;
    while i < ts.len()
        invariant
            0 <= i <= ts@.len(),
            views(out@) == drop_nones(views(ts@).take(i as int)),
        decreases ts@.len() - i,
    {
        proof {
            assert(views(ts@).take(i + 1).drop_last() =~= views(ts@).take(i as int));
        }
        if !ts[i].is_none() {
            let ghost before = out@;
            let c = ts[i].deep_clone();
            out.push(c);
            proof {
                assert(views(out@) =~= views(before).push(ts@[i as int]@));
            }
        }
        i += 1;
    }
    proof {
        assert(views(ts@).take(ts@.len() as int) =~= views(ts@));
    }
    out
}

/// A union of the given members: `never` when empty, the member itself when alone.
pub fn collapse(mut ts: Vec<Type>) -> (r: Type)
    ensures
        r@ == collapse_union(views(ts@)),
{
    if ts.len() == 0 {
        Type::Never
    } else if ts.len() == 1 {
        ts.pop().unwrap()
    } else {
        let r = Type::Union(ts);
        proof {
            lemma_view_shapes(r);
        }
        r
    }
}

/// Whether a vector holds a type with the given model.
pub fn contains_type(v: &Vec<Type>, t: &Type) -> (r: bool)
    ensures
        r == views(v@).contains(t@),
{
    let mut i: usize = 0;
    while i < v.len()
        invariant
            0 <= i <= v@.len(),
            forall|j: int| 0 <= j < i ==> views(v@)[j] != t@,
        decreases v@.len() - i,
    {
        if type_eq(&v[i], t) {
            proof {
                assert(views(v@)[i as int] == t@);
            }
            return true;
        }
        i += 1;
    }
    false
}

/// The first occurrence of every member, copied, in order.
pub fn dedup_types(flat: &Vec<Type>) -> (r: Vec<Type>)
    ensures
        views(r@) == dedup(views(flat@)),
{
    let mut seen: Vec<Type> = Vec::new();
    let mut i: usize = 0;
    while i < flat.len()
        invariant
            0 <= i <= flat@.len(),
            views(seen@) == dedup(views(flat@).take(i as int)),
        decreases flat@.len() - i,
    {
        proof {
            assert(views(flat@).take(i + 1).drop_last() =~= views(flat@).take(i as int));
        }
        if !contains_type(&seen, &flat[i]) {
            let ghost before = seen@;
            let c = flat[i].deep_clone();
            seen.push(c);
            proof {
                assert(views(seen@) =~= views(before).push(flat@[i as int]@));
            }
        }
        i += 1;
    }
    proof {
        assert(views(flat@).take(flat@.len() as int) =~= views(flat@));
    }
    seen
}

/// Copies of the members that `some` does not absorb, in order.
pub fn survivors(ts: &Vec<Type>) -> (r: Vec<Type>)
    ensures
        views(r@) == keep_survivors(views(ts@)),
{
    let mut out: Vec<Type> = Vec::new();
    let mut i: usize = 0;
    while i < ts.len()
        invariant
            0 <= i <= ts@.len(),
            views(out@) == keep_survivors(views(ts@).take(i as int)),
        decreases ts@.len() - i,
    {
        proof {
            assert(views(ts@).take(i + 1).drop_last() =~= views(ts@).take(i as int));
        }
        let keep = match &ts[i] {
            Type::SomeType | Type::NoneType | Type::Never => true,
            _ => false,
        };
        if keep {
            let ghost before = out@;
            let c = ts[i].deep_clone();
            out.push(c);
            proof {
                assert(views(out@) =~= views(before).push(ts@[i as int]@));
            }
        }
        i += 1;
    }
    proof {
        assert(views(ts@).take(ts@.len() as int) =~= views(ts@));
    }
    out
}

/// The simplified members of a vector, each nested union (or, when
/// `intersection`, each nested intersection) lifted one level.
#[verifier::loop_isolation(false)]
fn flatten_simplified(ts: &Vec<Type>, intersection: bool) -> (r: Vec<Type>)
    ensures
        ({
            let sv = simplify_all(views(ts@));
            views(r@) == if intersection { flatten_intersections(sv) } else { flatten_unions(sv) }
        }),
    decreases ts, 0nat,
{
    let ghost vs = views(ts@);
    let mut flat: Vec<Type> = Vec::new();
    let mut i: usize = 0;
    while i < ts.len()
        invariant
            0 <= i <= ts@.len(),
            views(flat@) == if intersection {
                flatten_intersections(simplify_all(vs.take(i as int)))
            } else {
                flatten_unions(simplify_all(vs.take(i as int)))
            },
        decreases ts@.len() - i,
    {
        proof {
            assert(vs.take(i + 1).drop_last() =~= vs.take(i as int));
            assert(simplify_all(vs.take(i + 1)) == simplify_all(vs.take(i as int)).push(
                simplify_v(vs[i as int]),
            ));
            assert(simplify_all(vs.take(i + 1)).drop_last() =~= simplify_all(vs.take(i as int)));
            assert(decreases_to!(ts => ts@));
            assert(decreases_to!(ts@ => ts@[i as int]));
        }
        let t = ts[i].simplify_ref();
        let ghost before = flat@;
        proof {
            lemma_view_shapes(t);
            assert(t@ == simplify_all(vs.take(i + 1)).last());
        }
        if intersection {
            match t {
                Type::Intersection(mut inner) => {
                    let ghost iv = inner@;
                    flat.append(&mut inner);
                    proof {
                        assert(views(flat@) =~= views(before) + views(iv));
                    }
                },
                other => {
                    flat.push(other);
                    proof {
                        assert(views(flat@) =~= views(before).push(other@));
                    }
                },
            }
        } else {
            match t {
                Type::Union(mut inner) => {
                    let ghost iv = inner@;
                    flat.append(&mut inner);
                    proof {
                        assert(views(flat@) =~= views(before) + views(iv));
                    }
                },
                other => {
                    flat.push(other);
                    proof {
                        assert(views(flat@) =~= views(before).push(other@));
                    }
                },
            }
        }
        i += 1;
    }
    proof {
        assert(vs.take(ts@.len() as int) =~= vs);
    }
    flat
}

impl Type {
    /// The simplified form of this type (see [`simplify_v`]).
    pub fn simplify(self) -> (r: Type)
        ensures
            r@ == simplify_v(self@),
    {
        self.simplify_ref()
    }

    /// The simplified form of this type, leaving it in place.
    pub fn simplify_ref(&self) -> (r: Type)
        ensures
            r@ == simplify_v(self@),
        decreases self, 1nat,
    {
        proof {
            lemma_view_shapes(*self);
        }
        match self {
            Type::Union(types) => {
                let flat = flatten_simplified(types, false);
                let seen = dedup_types(&flat);
                let has_some = contains_type(&seen, &Type::SomeType);
                let kept = if has_some { survivors(&seen) } else { seen };
                let r = collapse(kept);
                proof {
                    let vs = views(types@);
                    assert(self@ matches TypeV::Union(x) && x == vs);
                    let sn = dedup(flatten_unions(simplify_all(vs)));
                    assert(views(seen@) == sn);
                    assert(has_some == sn.contains(TypeV::SomeType));
                    assert(views(kept@) == (if sn.contains(TypeV::SomeType) { keep_survivors(sn) } else { sn }));
                    assert(simplify_v(self@) == collapse_union(if sn.contains(TypeV::SomeType) { keep_survivors(sn) } else { sn }));
                }
                r
            },
            Type::Intersection(types) => {
                let flat = flatten_simplified(types, true);
                let mut seen = dedup_types(&flat);
                proof {
                    let vs = views(types@);
                    assert(self@ matches TypeV::Intersection(x) && x == vs);
                }
                if seen.len() == 0 {
                    Type::SomeType
                } else if seen.len() == 1 {
                    seen.pop().unwrap()
                } else {
                    let r = Type::Intersection(seen);
                    proof {
                        lemma_view_shapes(r);
                    }
                    r
                }
            },
            _ => self.deep_clone(),
        }
    }
}

impl Type {
    /// The human-readable rendering of this type.
    pub fn display(&self) -> (r: String)
        ensures
            r@ == display_v(self@),
    {
        let mut out = String::new();
        self.display_into(&mut out);
        proof {
            assert(Seq::<char>::empty() + display_v(self@) =~= display_v(self@));
        }
        out
    }

    /// Appends the rendering of this type to `out`.
    #[verifier::loop_isolation(false)]
    pub fn display_into(&self, out: &mut String)
        ensures
            final(out)@ == old(out)@ + display_v(self@),
        decreases self, 1nat,
    {
        proof {
            lemma_view_shapes(*self);
        }
        let ghost start = out@;
        match self {
            Type::SomeType => push_str(out, "some"),
            Type::NoneType => push_str(out, "none"),
            Type::Never => push_str(out, "never"),
            Type::Null => push_str(out, "null"),
            Type::Bool => push_str(out, "bool"),
            Type::Int => push_str(out, "int"),
            Type::Num => push_str(out, "num"),
            Type::Str => push_str(out, "str"),
            Type::LiteralStr(s) => {
                push_char(out, '"');
                push_str(out, s.as_str());
                push_char(out, '"');
                proof {
                    assert(out@ =~= start + (seq!['"'] + s@ + seq!['"']));
                }
            },
            Type::Array(e) => {
                push_char(out, '[');
                e.display_into(out);
                push_char(out, ']');
                proof {
                    assert(out@ =~= start + (seq!['['] + display_v(e@) + seq![']']));
                }
            },
            Type::Ref(n) => push_str(out, n.as_str()),
            Type::Union(ts) => {
                display_members(ts, " | ", out);
                proof {
                    assert(self@ matches TypeV::Union(x) && x == views(ts@));
                }
            },
            Type::Intersection(ts) => {
                display_members(ts, " & ", out);
                proof {
                    assert(self@ matches TypeV::Intersection(x) && x == views(ts@));
                }
            },
            Type::Object { fields, wildcard } => {
                proof {
                    assert(self@ matches TypeV::Object { fields: x, wildcard: w } && x == field_views(
                        fields@,
                    ) && w == wildcard_view(*wildcard));
                }
                display_object(self, out);
            },
        }
    }
}

/// Appends the rendering of an object type with these fields and wildcard to `out`.
#[verifier::loop_isolation(false)]
fn display_object(obj: &Type, out: &mut String)
    requires
        obj is Object,
    ensures
        final(out)@ == old(out)@ + display_v(obj@),
    decreases obj, 0nat,
{
    let (fields, wildcard) = match obj {
        Type::Object { fields, wildcard } => (fields, wildcard),
        _ => {
            return;
        },
    };
    proof {
        lemma_view_shapes(*obj);
    }
    let ghost fv = field_views(fields@);
    let ghost start = out@;
    proof {
        let t = TypeV::Object { fields: fv, wildcard: wildcard_view(*wildcard) };
        assert(t matches TypeV::Object { fields: x, wildcard: w } && x == fv && w == wildcard_view(
            *wildcard,
        ));
    }
    if fields.len() == 0 && wildcard.is_none() {
        push_str(out, "{}");
        proof {
            assert(display_fields(fv).len() == 0);
        }
        return;
    }
    push_str(out, "{ ");
    let ghost after_open = out@;
    let mut i: usize = 0;
    while i < fields.len()
        invariant
            0 <= i <= fields@.len(),
            out@ == after_open + join_v(display_fields(fv.take(i as int)), " "@),
            display_fields(fv.take(i as int)).len() == i,
        decreases fields@.len() - i,
    {
        let ghost before = out@;
        proof {
            assert(fv.take(i + 1).drop_last() =~= fv.take(i as int));
            assert(decreases_to!(fields => fields@));
            assert(decreases_to!(fields@ => fields@[i as int]));
            assert(decreases_to!(fields@[i as int] => fields@[i as int].1));
        }
        if i > 0 {
            push_str(out, " ");
        }
        push_str(out, fields[i].0.as_str());
        push_str(out, ": ");
        fields[i].1.display_into(out);
        proof {
            let part = fv[i as int].0 + ": "@ + display_v(fv[i as int].1);
            assert(display_fields(fv.take(i + 1)) == display_fields(fv.take(i as int)).push(part));
            lemma_join_push(display_fields(fv.take(i as int)), " "@, part);
            assert(out@ =~= after_open + join_v(display_fields(fv.take(i + 1)), " "@));
        }
        i += 1;
    }
    proof {
        assert(fv.take(fields@.len() as int) =~= fv);
    }
    match wildcard {
        Option::Some(w) => {
            let ghost before = out@;
            if fields.len() > 0 {
                push_str(out, " ");
            }
            push_str(out, "*: ");
            w.display_into(out);
            proof {
                let part = "*: "@ + display_v(w@);
                lemma_join_push(display_fields(fv), " "@, part);
                assert(out@ =~= after_open + join_v(display_fields(fv).push(part), " "@));
            }
        },
        Option::None => {},
    }
    push_str(out, " }");
    proof {
        let parts = match wildcard_view(*wildcard) {
            Option::Some(w) => display_fields(fv).push("*: "@ + display_v(*w)),
            Option::None => display_fields(fv),
        };
        assert(out@ =~= start + ("{ "@ + join_v(parts, " "@) + " }"@));
    }
    proof {
        let t = TypeV::Object { fields: field_views(fields@), wildcard: wildcard_view(*wildcard) };
        assert(t matches TypeV::Object { fields: x, wildcard: w } && x == field_views(fields@)
            && w == wildcard_view(*wildcard));
    }
}

/// Appends the renderings of `ts` joined by `sep` to `out`.
#[verifier::loop_isolation(false)]
fn display_members(ts: &Vec<Type>, sep: &str, out: &mut String)
    ensures
        final(out)@ == old(out)@ + join_v(display_all(views(ts@)), sep@),
    decreases ts, 0nat,
{
    let ghost vs = views(ts@);
    let ghost start = out@;
    let mut i: usize = 0;
    while i < ts.len()
        invariant
            0 <= i <= ts@.len(),
            out@ == start + join_v(display_all(vs.take(i as int)), sep@),
            display_all(vs.take(i as int)).len() == i,
        decreases ts@.len() - i,
    {
        proof {
            assert(vs.take(i + 1).drop_last() =~= vs.take(i as int));
            assert(decreases_to!(ts => ts@));
            assert(decreases_to!(ts@ => ts@[i as int]));
        }
        if i > 0 {
            push_str(out, sep);
        }
        ts[i].display_into(out);
        proof {
            let part = display_v(vs[i as int]);
            assert(display_all(vs.take(i + 1)) == display_all(vs.take(i as int)).push(part));
            lemma_join_push(display_all(vs.take(i as int)), sep@, part);
            assert(out@ =~= start + join_v(display_all(vs.take(i + 1)), sep@));
        }
        i += 1;
    }
    proof {
        assert(vs.take(ts@.len() as int) =~= vs);
    }
}

/// Index of the first field named `key` (see [`key_index`]).
pub fn find_field(fs: &Vec<(String, Type)>, key: &str) -> (r: Option<usize>)
    ensures
        match r {
            Option::Some(i) => key_index(field_views(fs@), key@) == i && i < fs@.len(),
            Option::None => key_index(field_views(fs@), key@) == -1,
        },
{
    let ghost fv = field_views(fs@);
    let mut i: usize = 0;
    while i < fs.len()
        invariant
            0 <= i <= fs@.len(),
            fv == field_views(fs@),
            key_index(fv, key@) == key_index_from(fv, key@, i as int),
        decreases fs@.len() - i,
    {
        if str_eq(fs[i].0.as_str(), key) {
            return Option::Some(i);
        }
        i += 1;
    }
    Option::None
}

/// Whether `t` is exactly `some | none` in some order.
fn is_unknown_type(t: &Type) -> (r: bool)
    ensures
        r == is_unknown_v(t@),
{
    proof {
        lemma_view_shapes(*t);
    }
    match t {
        Type::Union(ts) => {
            if ts.len() != 2 {
                return false;
            }
            let a = contains_type(ts, &Type::SomeType);
            let b = contains_type(ts, &Type::NoneType);
            a && b
        },
        _ => false,
    }
}

impl Type {
    /// Check if type `self` is assignable to type `target` (see [`assignable_v`]).
    #[verifier::loop_isolation(false)]
    pub fn is_assignable_to(&self, target: &Type) -> (r: bool)
        ensures
            r == assignable_v(self@, target@),
        decreases self, target,
    {
        proof {
            lemma_view_shapes(*self);
            lemma_view_shapes(*target);
        }
        if type_eq(self, target) {
            return true;
        }
        if let Type::Never = self {
            return true;
        }
        if is_unknown_type(target) {
            return true;
        }
        if let Type::SomeType = target {
            if self.is_none() {
                return false;
            }
            if let Type::Union(ts) = self {
                let has_none = contains_type(ts, &Type::NoneType);
                return !has_none;
            }
            return true;
        }
        if let (Type::Int, Type::Num) = (self, target) {
            return true;
        }
        if let (Type::LiteralStr(_), Type::Str) = (self, target) {
            return true;
        }
        if let Type::Union(targets) = target {
            let ghost tv = views(targets@);
            proof {
                assert(target@ matches TypeV::Union(x) && x == tv);
            }
            let mut i: usize = 0;
            while i < targets.len()
                invariant
                    0 <= i <= targets@.len(),
                    forall|j: int| 0 <= j < i ==> !assignable_v(self@, #[trigger] tv[j]),
                decreases targets@.len() - i,
            {
                proof {
                    assert(decreases_to!(targets@ => targets@[i as int]));
                }
                if self.is_assignable_to(&targets[i]) {
                    proof {
                        assert(assignable_v(self@, tv[i as int]));
                    }
                    return true;
                }
                i += 1;
            }
            return false;
        }
        if let Type::Union(sources) = self {
            let ghost sv = views(sources@);
            proof {
                assert(self@ matches TypeV::Union(x) && x == sv);
            }
            let mut i: usize = 0;
            while i < sources.len()
                invariant
                    0 <= i <= sources@.len(),
                    forall|j: int| 0 <= j < i ==> assignable_v(#[trigger] sv[j], target@),
                decreases sources@.len() - i,
            {
                proof {
                    assert(decreases_to!(sources@ => sources@[i as int]));
                }
                if !sources[i].is_assignable_to(target) {
                    proof {
                        assert(!assignable_v(sv[i as int], target@));
                    }
                    return false;
                }
                i += 1;
            }
            return true;
        }
        if let Type::Intersection(sources) = self {
            let ghost sv = views(sources@);
            proof {
                assert(self@ matches TypeV::Intersection(x) && x == sv);
            }
            let mut i: usize = 0;
            while i < sources.len()
                invariant
                    0 <= i <= sources@.len(),
                    forall|j: int| 0 <= j < i ==> !assignable_v(#[trigger] sv[j], target@),
                decreases sources@.len() - i,
            {
                proof {
                    assert(decreases_to!(sources@ => sources@[i as int]));
                }
                if sources[i].is_assignable_to(target) {
                    proof {
                        assert(assignable_v(sv[i as int], target@));
                    }
                    return true;
                }
                i += 1;
            }
            return false;
        }
        if let Type::Intersection(targets) = target {
            let ghost tv = views(targets@);
            proof {
                assert(target@ matches TypeV::Intersection(x) && x == tv);
            }
            let mut i: usize = 0;
            while i < targets.len()
                invariant
                    0 <= i <= targets@.len(),
                    forall|j: int| 0 <= j < i ==> assignable_v(self@, #[trigger] tv[j]),
                decreases targets@.len() - i,
            {
                proof {
                    assert(decreases_to!(targets@ => targets@[i as int]));
                }
                if !self.is_assignable_to(&targets[i]) {
                    proof {
                        assert(!assignable_v(self@, tv[i as int]));
                    }
                    return false;
                }
                i += 1;
            }
            return true;
        }
        match (self, target) {
            (Type::Array(a), Type::Array(b)) => {
                proof {
                    assert(self@ matches TypeV::Array(x) && *x == a@);
                    assert(target@ matches TypeV::Array(y) && *y == b@);
                }
                a.is_assignable_to(b)
            },
            (
                Type::Object { fields: sf, wildcard: sw },
                Type::Object { fields: tf, wildcard: tw },
            ) => {
                let ghost sfv = field_views(sf@);
                let ghost tfv = field_views(tf@);
                proof {
                    assert(self@ matches TypeV::Object { fields: x, wildcard: w } && x == sfv
                        && w == wildcard_view(*sw));
                    assert(target@ matches TypeV::Object { fields: x, wildcard: w } && x == tfv
                        && w == wildcard_view(*tw));
                }
                let mut j: usize = 0;
                while j < tf.len()
                    invariant
                        0 <= j <= tf@.len(),
                        forall|k: int|
                            0 <= k < j ==> {
                                let idx = key_index(sfv, (#[trigger] tfv[k]).0);
                                if 0 <= idx < sfv.len() {
                                    assignable_v(sfv[idx].1, tfv[k].1)
                                } else {
                                    match wildcard_view(*sw) {
                                        Option::Some(w) => assignable_v(*w, tfv[k].1),
                                        Option::None => false,
                                    }
                                }
                            },
                    decreases tf@.len() - j,
                {
                    let found = find_field(sf, tf[j].0.as_str());
                    let ok = match found {
                        Option::Some(idx) => {
                            proof {
                                assert(decreases_to!(sf@ => sf@[idx as int]));
                                assert(decreases_to!(sf@[idx as int] => sf@[idx as int].1));
                            }
                            sf[idx].1.is_assignable_to(&tf[j].1)
                        },
                        Option::None => match sw {
                            Option::Some(w) => w.is_assignable_to(&tf[j].1),
                            Option::None => false,
                        },
                    };
                    if !ok {
                        proof {
                            assert(tfv[j as int].0 == tf@[j as int].0@);
                        }
                        return false;
                    }
                    j += 1;
                }
                if let Option::Some(tw_type) = tw {
                    if sw.is_none() {
                        let mut i: usize = 0;
                        while i < sf.len()
                            invariant
                                0 <= i <= sf@.len(),
                                forall|k: int| 0 <= k < i ==> assignable_v((#[trigger] sfv[k]).1, tw_type@),
                            decreases sf@.len() - i,
                        {
                            proof {
                                assert(decreases_to!(sf@ => sf@[i as int]));
                                assert(decreases_to!(sf@[i as int] => sf@[i as int].1));
                            }
                            if !sf[i].1.is_assignable_to(tw_type) {
                                proof {
                                    assert(!assignable_v(sfv[i as int].1, tw_type@));
                                }
                                return false;
                            }
                            i += 1;
                        }
                    }
                }
                true
            },
            _ => false,
        }
    }
}

/// Result of resolving a property access on a type.
#[derive(Debug, PartialEq)]
pub enum PropertyResult {
    /// Property found with this type.
    Known(Type),
    /// Property found via wildcard (map type). Type includes `| none`.
    Wildcard(Type),
    /// Property not found on this type — unknown field error.
    Unknown,
    /// Property unknown on some branches of a union, but resolved on others.
    UnknownInBranch(Type),
}

impl View for PropertyResult {
    type V = PropertyResultV;

    open spec fn view(&self) -> PropertyResultV {
        match self {
            PropertyResult::Known(t) => PropertyResultV::Known(t@),
            PropertyResult::Wildcard(t) => PropertyResultV::Wildcard(t@),
            PropertyResult::Unknown => PropertyResultV::Unknown,
            PropertyResult::UnknownInBranch(t) => PropertyResultV::UnknownInBranch(t@),
        }
    }
}

impl PropertyResult {
    /// The type this access yields: `none` where the property is unknown.
    pub fn into_type(self) -> (r: Type)
        ensures
            r@ == result_type_v(self@),
    {
        match self {
            PropertyResult::Known(ty) => ty,
            PropertyResult::Wildcard(ty) => ty,
            PropertyResult::UnknownInBranch(ty) => ty,
            PropertyResult::Unknown => Type::NoneType,
        }
    }
}

impl Type {
    /// Resolve property access on this type (see [`resolve_v`]).
    #[verifier::loop_isolation(false)]
    pub fn resolve_property(&self, key: &str) -> (r: PropertyResult)
        ensures
            r@ == resolve_v(self@, key@),
        decreases self,
    {
        proof {
            lemma_view_shapes(*self);
        }
        match self {
            Type::Object { fields, wildcard } => {
                proof {
                    assert(self@ matches TypeV::Object { fields: x, wildcard: w } && x == field_views(
                        fields@,
                    ) && w == wildcard_view(*wildcard));
                }
                match find_field(fields, key) {
                    Option::Some(i) => PropertyResult::Known(fields[i].1.deep_clone()),
                    Option::None => match wildcard {
                        Option::Some(w) => PropertyResult::Wildcard(w.add_none()),
                        Option::None => PropertyResult::Unknown,
                    },
                }
            },
            Type::Array(elem) => {
                if str_eq(key, "size") {
                    PropertyResult::Known(Type::Int)
                } else {
                    PropertyResult::Known(elem.add_none())
                }
            },
            Type::SomeType => PropertyResult::Known(Type::unknown()),
            Type::NoneType => PropertyResult::Known(Type::NoneType),
            Type::Never => PropertyResult::Known(Type::Never),
            Type::Union(types) => {
                let ghost vs = views(types@);
                proof {
                    assert(self@ matches TypeV::Union(x) && x == vs);
                }
                let mut results: Vec<Type> = Vec::new();
                let mut any_unknown = false;
                let mut i: usize = 0;
                while i < types.len()
                    invariant
                        0 <= i <= types@.len(),
                        views(results@) == result_types(resolve_all(vs.take(i as int), key@)),
                        resolve_all(vs.take(i as int), key@).len() == i,
                        any_unknown == exists|j: int|
                            0 <= j < i && !is_found_v(#[trigger] resolve_all(vs.take(i as int), key@)[j]),
                    decreases types@.len() - i,
                {
                    proof {
                        assert(vs.take(i + 1).drop_last() =~= vs.take(i as int));
                        assert(decreases_to!(types@ => types@[i as int]));
                    }
                    let ghost prev = resolve_all(vs.take(i as int), key@);
                    let r = types[i].resolve_property(key);
                    let ghost rv = r@;
                    let found = match &r {
                        PropertyResult::Known(_) | PropertyResult::Wildcard(_) => true,
                        _ => false,
                    };
                    let ghost before = results@;
                    results.push(r.into_type());
                    if !found {
                        any_unknown = true;
                    }
                    proof {
                        let cur = resolve_all(vs.take(i + 1), key@);
                        assert(cur == prev.push(rv));
                        assert(cur.drop_last() =~= prev);
                        assert(views(results@) =~= views(before).push(result_type_v(rv)));
                        assert forall|j: int| 0 <= j < i implies #[trigger] cur[j] == prev[j] by {}
                        if !found {
                            assert(!is_found_v(cur[i as int]));
                        }
                    }
                    i += 1;
                }
                proof {
                    assert(vs.take(types@.len() as int) =~= vs);
                }
                let u = Type::Union(results);
                proof {
                    lemma_view_shapes(u);
                }
                let combined = u.simplify();
                if any_unknown {
                    PropertyResult::UnknownInBranch(combined)
                } else {
                    PropertyResult::Known(combined)
                }
            },
            Type::Intersection(types) => {
                let ghost vs = views(types@);
                let ghost rs = resolve_all(vs, key@);
                proof {
                    assert(self@ matches TypeV::Intersection(x) && x == vs);
                    lemma_resolve_all_index(vs, key@);
                }
                let mut i: usize = 0;
                while i < types.len()
                    invariant
                        0 <= i <= types@.len(),
                        rs.len() == vs.len(),
                        first_found_from(rs, 0) == first_found_from(rs, i as int),
                        forall|j: int| 0 <= j < vs.len() ==> #[trigger] rs[j] == resolve_v(vs[j], key@),
                    decreases types@.len() - i,
                {
                    proof {
                        assert(decreases_to!(types@ => types@[i as int]));
                    }
                    let r = types[i].resolve_property(key);
                    match r {
                        PropertyResult::Known(_) | PropertyResult::Wildcard(_) => {
                            return r;
                        },
                        _ => {},
                    }
                    i += 1;
                }
                PropertyResult::Unknown
            },
            _ => PropertyResult::Unknown,
        }
    }

    /// Check if this type is numeric (integer or number).
    #[verifier::loop_isolation(false)]
    pub fn is_numeric(&self) -> (r: bool)
        ensures
            r == is_numeric_v(self@),
        decreases self,
    {
        proof {
            lemma_view_shapes(*self);
        }
        match self {
            Type::Int | Type::Num => true,
            Type::Intersection(types) => {
                let ghost vs = views(types@);
                proof {
                    assert(self@ matches TypeV::Intersection(x) && x == vs);
                }
                let mut i: usize = 0;
                while i < types.len()
                    invariant
                        0 <= i <= types@.len(),
                        forall|j: int| 0 <= j < i ==> !is_numeric_v(#[trigger] vs[j]),
                    decreases types@.len() - i,
                {
                    proof {
                        assert(decreases_to!(types@ => types@[i as int]));
                    }
                    if types[i].is_numeric() {
                        proof {
                            assert(is_numeric_v(vs[i as int]));
                        }
                        return true;
                    }
                    i += 1;
                }
                false
            },
            _ => false,
        }
    }

    /// Check if this type is a string type (string or literal string).
    #[verifier::loop_isolation(false)]
    pub fn is_string(&self) -> (r: bool)
        ensures
            r == is_string_v(self@),
        decreases self,
    {
        proof {
            lemma_view_shapes(*self);
        }
        match self {
            Type::Str | Type::LiteralStr(_) => true,
            Type::Intersection(types) => {
                let ghost vs = views(types@);
                proof {
                    assert(self@ matches TypeV::Intersection(x) && x == vs);
                }
                let mut i: usize = 0;
                while i < types.len()
                    invariant
                        0 <= i <= types@.len(),
                        forall|j: int| 0 <= j < i ==> !is_string_v(#[trigger] vs[j]),
                    decreases types@.len() - i,
                {
                    proof {
                        assert(decreases_to!(types@ => types@[i as int]));
                    }
                    if types[i].is_string() {
                        proof {
                            assert(is_string_v(vs[i as int]));
                        }
                        return true;
                    }
                    i += 1;
                }
                false
            },
            _ => false,
        }
    }
}

/// `resolve_all` resolves each member at its own index.
pub proof fn lemma_resolve_all_index(ts: Seq<TypeV>, key: Seq<char>)
    ensures
        resolve_all(ts, key).len() == ts.len(),
        forall|j: int| 0 <= j < ts.len() ==> #[trigger] resolve_all(ts, key)[j] == resolve_v(ts[j], key),
    decreases ts.len(),
{
    if ts.len() > 0 {
        lemma_resolve_all_index(ts.drop_last(), key);
    }
}

/// Remove `none` from a type (comprehensions filter out none values).
pub fn strip_none(ty: Type) -> (r: Type)
    ensures
        r@ == remove_none_v(ty@),
{
    ty.remove_none()
}

/// A union of two types.
fn union2(a: Type, b: Type) -> (r: Type)
    ensures
        r@ == TypeV::Union(seq![a@, b@]),
{
    let r = Type::Union(vec![a, b]);
    proof {
        lemma_view_shapes(r);
        assert(views(r->Union_0@) =~= seq![a@, b@]);
    }
    r
}

/// The return type of a built-in method call, or `None` if `method` is not one.
pub fn builtin_method_type(target: &Type, method: &str, _args: &[Type]) -> (r: Option<Type>)
    ensures
        match r {
            Option::Some(t) => builtin_method_v(target@, method@) == Option::Some(t@),
            Option::None => builtin_method_v(target@, method@) is None,
        },
{
    match target {
        Type::Array(elem) => {
            if str_eq(method, "push") || str_eq(method, "slice") {
                Option::Some(Type::Array(Box::new(elem.deep_clone())))
            } else if str_eq(method, "pop") || str_eq(method, "contains") {
                Option::Some(union2(elem.deep_clone(), Type::NoneType))
            } else if str_eq(method, "join") {
                Option::Some(Type::Str)
            } else if str_eq(method, "indexOf") {
                Option::Some(union2(Type::Int, Type::NoneType))
            } else {
                Option::None
            }
        },
        Type::Str => {
            if str_eq(method, "split") {
                Option::Some(Type::Array(Box::new(Type::Str)))
            } else if str_eq(method, "trim") || str_eq(method, "upper") || str_eq(method, "lower")
                || str_eq(method, "replace") || str_eq(method, "slice") {
                Option::Some(Type::Str)
            } else if str_eq(method, "indexOf") {
                Option::Some(union2(Type::Int, Type::NoneType))
            } else if str_eq(method, "contains") || str_eq(method, "starts-with") || str_eq(
                method,
                "ends-with",
            ) {
                Option::Some(union2(Type::Str, Type::NoneType))
            } else {
                Option::None
            }
        },
        Type::SomeType | Type::Union(_) => {
            if str_eq(method, "indexOf") {
                Option::Some(union2(Type::Int, Type::NoneType))
            } else if str_eq(method, "push") || str_eq(method, "slice") || str_eq(method, "pop")
                || str_eq(method, "join") || str_eq(method, "trim") || str_eq(method, "upper")
                || str_eq(method, "lower") || str_eq(method, "replace") || str_eq(method, "split")
                || str_eq(method, "contains") || str_eq(method, "starts-with") || str_eq(
                method,
                "ends-with",
            ) {
                Option::Some(Type::SomeType)
            } else {
                Option::None
            }
        },
        _ => Option::None,
    }
}

impl Clone for Type {
    fn clone(&self) -> (r: Self)
        ensures
            r@ == self@,
    {
        self.deep_clone()
    }
}

} // verus!
verus! {

// ── Laws ────────────────────────────────────────────────────────────────

/// After `add_none`, a type may be `none`.
pub proof fn law_add_none_contains_none(t: TypeV)
    ensures
        contains_none_v(add_none_v(t)),
{
    if !contains_none_v(t) {
        match t {
            TypeV::Union(ts) => {
                let s = ts.push(TypeV::NoneType);
                assert(s[s.len() - 1] == TypeV::NoneType);
                assert(contains_none_v(TypeV::NoneType));
                lemma_contains_none_member(s, s.len() - 1);
            },
            _ => {
                let s = seq![t, TypeV::NoneType];
                assert(contains_none_v(s[1]));
                lemma_contains_none_member(s, 1);
            },
        }
    }
}

/// Adding `none` twice is the same as adding it once.
pub proof fn law_add_none_idempotent(t: TypeV)
    ensures
        add_none_v(add_none_v(t)) == add_none_v(t),
{
    law_add_none_contains_none(t);
}

/// Every type is assignable to itself.
pub proof fn law_assignable_reflexive(t: TypeV)
    ensures
        assignable_v(t, t),
{
}

/// `never` is assignable to every type (it is the bottom type).
pub proof fn law_never_assignable(t: TypeV)
    ensures
        assignable_v(TypeV::Never, t),
{
}

/// Every type is assignable to `some | none`.
pub proof fn law_assignable_to_unknown(t: TypeV)
    ensures
        assignable_v(t, unknown_v()),
{
    let u = unknown_v();
    assert(u matches TypeV::Union(ts) && ts == seq![TypeV::SomeType, TypeV::NoneType]);
    assert(seq![TypeV::SomeType, TypeV::NoneType][0] == TypeV::SomeType);
    assert(seq![TypeV::SomeType, TypeV::NoneType][1] == TypeV::NoneType);
    assert(is_unknown_v(u));
}

/// `int` is assignable to `num`.
pub proof fn law_int_assignable_to_num()
    ensures
        assignable_v(TypeV::Int, TypeV::Num),
{
}

/// A type assignable to some member of a union is assignable to the union.
pub proof fn law_assignable_to_union_member(s: TypeV, ts: Seq<TypeV>, i: int)
    requires
        0 <= i < ts.len(),
        assignable_v(s, ts[i]),
    ensures
        assignable_v(s, TypeV::Union(ts)),
{
    let u = TypeV::Union(ts);
    assert(u matches TypeV::Union(x) && x == ts);
}

/// No member left by `drop_nones` is `none`.
pub proof fn lemma_drop_nones_members(s: Seq<TypeV>)
    ensures
        forall|i: int| 0 <= i < drop_nones(s).len() ==> !(#[trigger] drop_nones(s)[i] is NoneType),
    decreases s.len(),
{
    if s.len() > 0 {
        lemma_drop_nones_members(s.drop_last());
    }
}

/// After `remove_none`, a type is not `none` itself.
pub proof fn law_remove_none_excludes_none(t: TypeV)
    ensures
        !(remove_none_v(t) is NoneType),
{
    if let TypeV::Union(ts) = t {
        assert(t matches TypeV::Union(x) && x == ts);
        lemma_drop_nones_members(ts);
        let d = drop_nones(ts);
        if d.len() == 1 {
            assert(!(d[0] is NoneType));
        }
    }
}

// ── The simplified form ─────────────────────────────────────────────────

/// No member occurs twice.
pub open spec fn distinct_members(s: Seq<TypeV>) -> bool {
    forall|i: int, j: int| 0 <= i < j < s.len() ==> s[i] != s[j]
}

/// No member is a union.
pub open spec fn no_unions(s: Seq<TypeV>) -> bool {
    forall|i: int| 0 <= i < s.len() ==> !(#[trigger] s[i] is Union)
}

/// No member is an intersection.
pub open spec fn no_intersections(s: Seq<TypeV>) -> bool {
    forall|i: int| 0 <= i < s.len() ==> !(#[trigger] s[i] is Intersection)
}

/// Every member survives `some` (is `some`, `none` or `never`).
pub open spec fn all_survive(s: Seq<TypeV>) -> bool {
    forall|i: int| 0 <= i < s.len() ==> survives_some(#[trigger] s[i])
}

/// Whether `t` is in simplified form: a union has at least two members,
/// none of them a union, none twice, each simplified, and only `some`,
/// `none` and `never` beside `some`; an intersection has at least two
/// members, none of them an intersection, none twice, each simplified.
pub open spec fn simple_v(t: TypeV) -> bool
    decreases t, 1nat,
{
    match t {
        TypeV::Union(us) => us.len() >= 2 && distinct_members(us) && no_unions(us) && simple_all(us)
            && (us.contains(TypeV::SomeType) ==> all_survive(us)),
        TypeV::Intersection(us) => us.len() >= 2 && distinct_members(us) && no_intersections(us)
            && simple_all(us),
        _ => true,
    }
}

/// Whether every member is in simplified form.
pub open spec fn simple_all(s: Seq<TypeV>) -> bool
    decreases s, 0nat,
{
    if s.len() == 0 {
        true
    } else {
        proof {
            assert(decreases_to!(s => s.drop_last()));
        }
        simple_all(s.drop_last()) && simple_v(s.last())
    }
}

proof fn lemma_simple_all_index(s: Seq<TypeV>)
    ensures
        simple_all(s) <==> forall|i: int| 0 <= i < s.len() ==> simple_v(#[trigger] s[i]),
    decreases s.len(),
{
    if s.len() > 0 {
        lemma_simple_all_index(s.drop_last());
        assert forall|i: int| 0 <= i < s.len() - 1 implies s.drop_last()[i] == s[i] by {}
        if forall|i: int| 0 <= i < s.len() ==> simple_v(#[trigger] s[i]) {
            assert forall|i: int| 0 <= i < s.drop_last().len() implies simple_v(
                #[trigger] s.drop_last()[i],
            ) by {
                assert(s.drop_last()[i] == s[i]);
            }
            assert(simple_v(s[s.len() - 1]));
        }
    }
}

proof fn lemma_flatten_unions_id(s: Seq<TypeV>)
    requires
        no_unions(s),
    ensures
        flatten_unions(s) == s,
    decreases s.len(),
{
    if s.len() > 0 {
        assert(no_unions(s.drop_last()));
        lemma_flatten_unions_id(s.drop_last());
        assert(!(s[s.len() - 1] is Union));
        assert(s.drop_last().push(s.last()) =~= s);
    }
}

proof fn lemma_flatten_intersections_id(s: Seq<TypeV>)
    requires
        no_intersections(s),
    ensures
        flatten_intersections(s) == s,
    decreases s.len(),
{
    if s.len() > 0 {
        assert(no_intersections(s.drop_last()));
        lemma_flatten_intersections_id(s.drop_last());
        assert(!(s[s.len() - 1] is Intersection));
        assert(s.drop_last().push(s.last()) =~= s);
    }
}

proof fn lemma_dedup_id(s: Seq<TypeV>)
    requires
        distinct_members(s),
    ensures
        dedup(s) == s,
    decreases s.len(),
{
    if s.len() > 0 {
        let d = s.drop_last();
        assert(distinct_members(d));
        lemma_dedup_id(d);
        if d.contains(s.last()) {
            let j = choose|j: int| 0 <= j < d.len() && d[j] == s.last();
            assert(s[j] == s[s.len() - 1]);
        }
        assert(d.push(s.last()) =~= s);
    }
}

proof fn lemma_keep_survivors_id(s: Seq<TypeV>)
    requires
        all_survive(s),
    ensures
        keep_survivors(s) == s,
    decreases s.len(),
{
    if s.len() > 0 {
        assert(all_survive(s.drop_last()));
        lemma_keep_survivors_id(s.drop_last());
        assert(survives_some(s[s.len() - 1]));
        assert(s.drop_last().push(s.last()) =~= s);
    }
}

proof fn lemma_simplify_id(t: TypeV)
    requires
        simple_v(t),
    ensures
        simplify_v(t) == t,
    decreases t, 1nat,
{
    match t {
        TypeV::Union(us) => {
            lemma_simplify_all_id(us);
            lemma_flatten_unions_id(us);
            lemma_dedup_id(us);
            if us.contains(TypeV::SomeType) {
                lemma_keep_survivors_id(us);
            }
        },
        TypeV::Intersection(us) => {
            lemma_simplify_all_id(us);
            lemma_flatten_intersections_id(us);
            lemma_dedup_id(us);
        },
        _ => {},
    }
}

proof fn lemma_simplify_all_id(s: Seq<TypeV>)
    requires
        simple_all(s),
    ensures
        simplify_all(s) == s,
    decreases s, 0nat,
{
    if s.len() > 0 {
        assert(decreases_to!(s => s.drop_last()));
        lemma_simplify_all_id(s.drop_last());
        lemma_simplify_id(s.last());
        assert(s.drop_last().push(s.last()) =~= s);
    }
}

/// Every member of `r` is a member of `s`.
pub open spec fn members_of(r: Seq<TypeV>, s: Seq<TypeV>) -> bool {
    forall|i: int| 0 <= i < r.len() ==> s.contains(#[trigger] r[i])
}

/// Every member of `s` is in simplified form.
pub open spec fn each_simple(s: Seq<TypeV>) -> bool {
    forall|i: int| 0 <= i < s.len() ==> simple_v(#[trigger] s[i])
}

proof fn lemma_flatten_unions_simple(s: Seq<TypeV>)
    requires
        each_simple(s),
    ensures
        no_unions(flatten_unions(s)),
        each_simple(flatten_unions(s)),
    decreases s.len(),
{
    if s.len() > 0 {
        let d = s.drop_last();
        assert(each_simple(d)) by {
            assert forall|i: int| 0 <= i < d.len() implies simple_v(#[trigger] d[i]) by {
                assert(d[i] == s[i]);
            }
        }
        lemma_flatten_unions_simple(d);
        let r = flatten_unions(d);
        assert(simple_v(s[s.len() - 1]));
        match s.last() {
            TypeV::Union(inner) => {
                lemma_simple_all_index(inner);
                let f = r + inner;
                assert forall|i: int| 0 <= i < f.len() implies !(#[trigger] f[i] is Union) && simple_v(
                    f[i],
                ) by {
                    if i < r.len() {
                        assert(f[i] == r[i]);
                    } else {
                        assert(f[i] == inner[i - r.len()]);
                    }
                }
            },
            other => {
                let f = r.push(other);
                assert forall|i: int| 0 <= i < f.len() implies !(#[trigger] f[i] is Union) && simple_v(
                    f[i],
                ) by {
                    if i < r.len() {
                        assert(f[i] == r[i]);
                    }
                }
            },
        }
    }
}

proof fn lemma_flatten_intersections_simple(s: Seq<TypeV>)
    requires
        each_simple(s),
    ensures
        no_intersections(flatten_intersections(s)),
        each_simple(flatten_intersections(s)),
    decreases s.len(),
{
    if s.len() > 0 {
        let d = s.drop_last();
        assert(each_simple(d)) by {
            assert forall|i: int| 0 <= i < d.len() implies simple_v(#[trigger] d[i]) by {
                assert(d[i] == s[i]);
            }
        }
        lemma_flatten_intersections_simple(d);
        let r = flatten_intersections(d);
        assert(simple_v(s[s.len() - 1]));
        match s.last() {
            TypeV::Intersection(inner) => {
                lemma_simple_all_index(inner);
                let f = r + inner;
                assert forall|i: int| 0 <= i < f.len() implies !(
                #[trigger] f[i] is Intersection) && simple_v(f[i]) by {
                    if i < r.len() {
                        assert(f[i] == r[i]);
                    } else {
                        assert(f[i] == inner[i - r.len()]);
                    }
                }
            },
            other => {
                let f = r.push(other);
                assert forall|i: int| 0 <= i < f.len() implies !(
                #[trigger] f[i] is Intersection) && simple_v(f[i]) by {
                    if i < r.len() {
                        assert(f[i] == r[i]);
                    }
                }
            },
        }
    }
}

proof fn lemma_dedup_props(s: Seq<TypeV>)
    ensures
        distinct_members(dedup(s)),
        members_of(dedup(s), s),
    decreases s.len(),
{
    if s.len() > 0 {
        let d = s.drop_last();
        lemma_dedup_props(d);
        let r = dedup(d);
        assert forall|x: TypeV| d.contains(x) implies s.contains(x) by {
            let j = choose|j: int| 0 <= j < d.len() && d[j] == x;
            assert(s[j] == x);
        }
        if !r.contains(s.last()) {
            let f = r.push(s.last());
            assert forall|i: int, j: int| 0 <= i < j < f.len() implies f[i] != f[j] by {
                if j == r.len() {
                    assert(f[i] == r[i]);
                    assert(r.contains(r[i]));
                } else {
                    assert(f[i] == r[i] && f[j] == r[j]);
                }
            }
            assert forall|i: int| 0 <= i < f.len() implies s.contains(#[trigger] f[i]) by {
                if i < r.len() {
                    assert(f[i] == r[i]);
                    assert(d.contains(r[i]));
                } else {
                    assert(s[s.len() - 1] == f[i]);
                }
            }
        } else {
            assert forall|i: int| 0 <= i < r.len() implies s.contains(#[trigger] r[i]) by {
                assert(d.contains(r[i]));
            }
        }
    }
}

proof fn lemma_keep_survivors_props(s: Seq<TypeV>)
    ensures
        all_survive(keep_survivors(s)),
        members_of(keep_survivors(s), s),
        distinct_members(s) ==> distinct_members(keep_survivors(s)),
    decreases s.len(),
{
    if s.len() > 0 {
        let d = s.drop_last();
        lemma_keep_survivors_props(d);
        let r = keep_survivors(d);
        assert forall|x: TypeV| d.contains(x) implies s.contains(x) by {
            let j = choose|j: int| 0 <= j < d.len() && d[j] == x;
            assert(s[j] == x);
        }
        if distinct_members(s) {
            assert(distinct_members(d)) by {
                assert forall|i: int, j: int| 0 <= i < j < d.len() implies d[i] != d[j] by {
                    assert(d[i] == s[i] && d[j] == s[j]);
                }
            }
        }
        if survives_some(s.last()) {
            let f = r.push(s.last());
            assert forall|i: int| 0 <= i < f.len() implies s.contains(#[trigger] f[i]) by {
                if i < r.len() {
                    assert(f[i] == r[i]);
                    assert(d.contains(r[i]));
                } else {
                    assert(s[s.len() - 1] == f[i]);
                }
            }
            assert forall|i: int| 0 <= i < f.len() implies survives_some(#[trigger] f[i]) by {
                if i < r.len() {
                    assert(f[i] == r[i]);
                }
            }
            if distinct_members(s) {
                assert forall|i: int, j: int| 0 <= i < j < f.len() implies f[i] != f[j] by {
                    if j == r.len() {
                        assert(f[i] == r[i]);
                        assert(d.contains(r[i]));
                        let k = choose|k: int| 0 <= k < d.len() && d[k] == r[i];
                        assert(s[k] == d[k]);
                        assert(s[s.len() - 1] == f[j]);
                    } else {
                        assert(f[i] == r[i] && f[j] == r[j]);
                    }
                }
            }
        } else {
            assert forall|i: int| 0 <= i < r.len() implies s.contains(#[trigger] r[i]) by {
                assert(d.contains(r[i]));
            }
        }
    }
}

/// Properties of all members carry over to a sequence of some of them.
proof fn lemma_members_carry(r: Seq<TypeV>, s: Seq<TypeV>)
    requires
        members_of(r, s),
    ensures
        each_simple(s) ==> each_simple(r),
        no_unions(s) ==> no_unions(r),
        no_intersections(s) ==> no_intersections(r),
        !s.contains(TypeV::SomeType) ==> !r.contains(TypeV::SomeType),
{
    assert forall|i: int| 0 <= i < r.len() implies exists|j: int| 0 <= j < s.len() && s[j] == #[trigger] r[i] by {
        assert(s.contains(r[i]));
    }
    if r.contains(TypeV::SomeType) {
        let i = choose|i: int| 0 <= i < r.len() && r[i] == TypeV::SomeType;
        assert(s.contains(r[i]));
    }
}

proof fn lemma_simplify_simple(t: TypeV)
    ensures
        simple_v(simplify_v(t)),
    decreases t, 1nat,
{
    match t {
        TypeV::Union(ts) => {
            lemma_simplify_all_simple(ts);
            let sa = simplify_all(ts);
            lemma_simple_all_index(sa);
            lemma_flatten_unions_simple(sa);
            let fl = flatten_unions(sa);
            lemma_dedup_props(fl);
            let seen = dedup(fl);
            lemma_members_carry(seen, fl);
            let kept = if seen.contains(TypeV::SomeType) { keep_survivors(seen) } else { seen };
            if seen.contains(TypeV::SomeType) {
                lemma_keep_survivors_props(seen);
                lemma_members_carry(kept, seen);
            }
            lemma_simple_all_index(kept);
            if kept.len() == 1 {
                assert(simple_v(kept[0]));
            }
        },
        TypeV::Intersection(ts) => {
            lemma_simplify_all_simple(ts);
            let sa = simplify_all(ts);
            lemma_simple_all_index(sa);
            lemma_flatten_intersections_simple(sa);
            let fl = flatten_intersections(sa);
            lemma_dedup_props(fl);
            let seen = dedup(fl);
            lemma_members_carry(seen, fl);
            lemma_simple_all_index(seen);
            if seen.len() == 1 {
                assert(simple_v(seen[0]));
            }
        },
        _ => {},
    }
}

proof fn lemma_simplify_all_simple(s: Seq<TypeV>)
    ensures
        simple_all(simplify_all(s)),
    decreases s, 0nat,
{
    if s.len() > 0 {
        assert(decreases_to!(s => s.drop_last()));
        lemma_simplify_all_simple(s.drop_last());
        lemma_simplify_simple(s.last());
        let r = simplify_all(s);
        assert(r.drop_last() =~= simplify_all(s.drop_last()));
    }
}

/// Simplifying gives a type in simplified form (`simple_v`: a union is
/// flat, has at least two members, none twice, and only `some`, `none` and
/// `never` beside `some`; likewise for intersections), and simplifying it
/// again changes nothing.
pub proof fn law_simplify_normal_idempotent(t: TypeV)
    ensures
        simple_v(simplify_v(t)),
        simplify_v(simplify_v(t)) == simplify_v(t),
{
    lemma_simplify_simple(t);
    lemma_simplify_id(simplify_v(t));
}

/// Arrays are covariant: when `s` is assignable to `t`, an array of `s` is
/// assignable to an array of `t` (so `[int]` is assignable to `[num]`).
pub proof fn law_array_covariant(s: TypeV, t: TypeV)
    requires
        assignable_v(s, t),
    ensures
        assignable_v(TypeV::Array(Box::new(s)), TypeV::Array(Box::new(t))),
{
    let a = TypeV::Array(Box::new(s));
    let b = TypeV::Array(Box::new(t));
    assert(!is_unknown_v(b));
    assert(!none_at_top_v(a));
}

/// `[int]` is assignable to `[num]`, and `[num]` is not assignable to
/// `[int]`.
pub proof fn law_int_array_to_num_array()
    ensures
        assignable_v(TypeV::Array(Box::new(TypeV::Int)), TypeV::Array(Box::new(TypeV::Num))),
        !assignable_v(TypeV::Array(Box::new(TypeV::Num)), TypeV::Array(Box::new(TypeV::Int))),
{
    law_array_covariant(TypeV::Int, TypeV::Num);
    let a = TypeV::Array(Box::new(TypeV::Num));
    let b = TypeV::Array(Box::new(TypeV::Int));
    assert(!is_unknown_v(b));
    assert(!assignable_v(TypeV::Num, TypeV::Int));
}

/// Resolving on every member of `ts` gives one result per member, in order.
proof fn lemma_resolve_all(ts: Seq<TypeV>, key: Seq<char>)
    ensures
        resolve_all(ts, key).len() == ts.len(),
        forall|i: int| 0 <= i < ts.len() ==> #[trigger] resolve_all(ts, key)[i] == resolve_v(ts[i], key),
    decreases ts.len(),
{
    if ts.len() > 0 {
        lemma_resolve_all(ts.drop_last(), key);
        assert forall|i: int| 0 <= i < ts.len() implies #[trigger] resolve_all(ts, key)[i] == resolve_v(
            ts[i],
            key,
        ) by {
            if i < ts.len() - 1 {
                assert(resolve_all(ts.drop_last(), key)[i] == resolve_v(ts.drop_last()[i], key));
            }
        }
    }
}

/// A property of a union is known when every member finds it, directly or
/// through a wildcard, and flagged as unknown in a branch as soon as one
/// member does not (its own result is unknown, or unknown in a branch).
pub proof fn law_union_property(ts: Seq<TypeV>, key: Seq<char>)
    ensures
        (forall|i: int| 0 <= i < ts.len() ==> (#[trigger] resolve_v(ts[i], key) is Known || resolve_v(
            ts[i],
            key,
        ) is Wildcard)) ==> resolve_v(TypeV::Union(ts), key) is Known,
        (exists|i: int| 0 <= i < ts.len() && (#[trigger] resolve_v(ts[i], key) is Unknown || resolve_v(
            ts[i],
            key,
        ) is UnknownInBranch)) ==> resolve_v(TypeV::Union(ts), key) is UnknownInBranch,
{
    lemma_resolve_all(ts, key);
    let rs = resolve_all(ts, key);
    if exists|i: int| 0 <= i < ts.len() && (#[trigger] resolve_v(ts[i], key) is Unknown || resolve_v(
        ts[i],
        key,
    ) is UnknownInBranch) {
        let i = choose|i: int| 0 <= i < ts.len() && (#[trigger] resolve_v(ts[i], key) is Unknown
            || resolve_v(ts[i], key) is UnknownInBranch);
        assert(rs[i] == resolve_v(ts[i], key));
        assert(!is_found_v(rs[i]));
    }
    if forall|i: int| 0 <= i < ts.len() ==> (#[trigger] resolve_v(ts[i], key) is Known || resolve_v(
        ts[i],
        key,
    ) is Wildcard) {
        assert forall|i: int| 0 <= i < rs.len() implies is_found_v(#[trigger] rs[i]) by {
            assert(rs[i] == resolve_v(ts[i], key));
        }
    }
}

/// A union of objects that all declare `key` resolves it as known.
pub proof fn law_union_of_declaring_objects(ts: Seq<TypeV>, key: Seq<char>)
    requires
        forall|i: int|
            0 <= i < ts.len() ==> (#[trigger] ts[i] matches TypeV::Object { fields, .. } && 0
                <= key_index(fields, key) < fields.len()),
    ensures
        resolve_v(TypeV::Union(ts), key) is Known,
{
    assert forall|i: int| 0 <= i < ts.len() implies (#[trigger] resolve_v(ts[i], key) is Known
        || resolve_v(ts[i], key) is Wildcard) by {
        assert(ts[i] matches TypeV::Object { fields, .. } && 0 <= key_index(fields, key) < fields.len());
    }
    law_union_property(ts, key);
}

} // verus!
