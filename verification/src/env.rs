//! The domain schema that a `.rexd` file describes, diagnostics, and the
//! scoped variable environment of the type checker.

use vstd::prelude::*;
use crate::heap::str_index;
use crate::text::{push_str, str_chars, str_eq, str_to_string};
use crate::types::{
    Type, TypeV, field_views, find_field, key_index, lemma_view_shapes, remove_none_v, views,
    wildcard_view,
};

verus! {

/// A global binding of the domain.
pub struct GlobalEntry {
    pub ty: Type,
    /// Whether the whole binding may be assigned.
    pub mutable: bool,
    /// The fields that may be written (`*` for every key of a map).
    pub mutable_fields: Vec<String>,
    pub doc: Option<String>,
}

/// A host function of the domain.
pub struct FunctionSig {
    pub args: Vec<(String, Type)>,
    pub rest: Option<(String, Type)>,
    pub returns: Type,
    pub doc: Option<String>,
}

/// The schema of a domain: type aliases, globals and functions, by name
/// (lookups find the first entry of a name).
pub struct DomainSchema {
    pub type_aliases: Vec<(String, Type)>,
    pub globals: Vec<(String, GlobalEntry)>,
    pub functions: Vec<(String, FunctionSig)>,
}

/// How serious a diagnostic is.
#[derive(Clone, Copy, PartialEq, Eq, Debug, Structural)]
pub enum DiagnosticKind {
    Error,
    Warning,
}

/// A message about a span of the source.
pub struct Diagnostic {
    pub kind: DiagnosticKind,
    pub span_start: usize,
    pub span_end: usize,
    pub message: String,
}

/// The names of the globals, in order.
pub open spec fn global_names(gs: Seq<(String, GlobalEntry)>) -> Seq<Seq<char>> {
    Seq::new(gs.len(), |i: int| gs[i].0@)
}

/// The globals as names and types.
pub open spec fn global_types(gs: Seq<(String, GlobalEntry)>) -> Seq<(Seq<char>, TypeV)> {
    Seq::new(gs.len(), |i: int| (gs[i].0@, gs[i].1.ty@))
}

/// A scope after binding `name` to `ty`: the binding of that name, if any,
/// takes the type; else a new binding goes at the end.
pub open spec fn scope_set(scope: Seq<(Seq<char>, TypeV)>, name: Seq<char>, ty: TypeV) -> Seq<
    (Seq<char>, TypeV),
> {
    if key_index(scope, name) >= 0 {
        scope.update(key_index(scope, name), (name, ty))
    } else {
        scope.push((name, ty))
    }
}

/// The scope that the globals seed: each bound to its type, in order.
pub open spec fn seeded(gs: Seq<(Seq<char>, TypeV)>) -> Seq<(Seq<char>, TypeV)>
    decreases gs.len(),
{
    if gs.len() == 0 {
        Seq::empty()
    } else {
        scope_set(seeded(gs.drop_last()), gs.last().0, gs.last().1)
    }
}

/// The type of `name` in the innermost scope that binds it.
pub open spec fn lookup_v(scopes: Seq<Seq<(Seq<char>, TypeV)>>, name: Seq<char>) -> Option<TypeV>
    decreases scopes.len(),
{
    if scopes.len() == 0 {
        Option::None
    } else if key_index(scopes.last(), name) >= 0 {
        Option::Some(scopes.last()[key_index(scopes.last(), name)].1)
    } else {
        lookup_v(scopes.drop_last(), name)
    }
}

/// The part of a dotted path before its first dot (all of it without one).
pub open spec fn first_segment(s: Seq<char>) -> Seq<char> {
    if s.contains('.') {
        s.take(dot_index(s))
    } else {
        s
    }
}

/// Index of the first dot of `s` (its length when there is none).
pub open spec fn dot_index(s: Seq<char>) -> int
    decreases s.len(),
{
    if s.len() == 0 {
        0
    } else if s[0] == '.' {
        0
    } else {
        1 + dot_index(s.drop_first())
    }
}

/// The type environment: the domain schema, a stack of variable scopes
/// (innermost last), and the diagnostics so far.
pub struct TypeEnv<'a> {
    pub schema: &'a DomainSchema,
    /// Type aliases declared by `type` in the checked source.
    pub inline_aliases: Vec<(String, Type)>,
    pub scopes: Vec<Vec<(String, Type)>>,
    pub diagnostics: Vec<Diagnostic>,
}

impl<'a> TypeEnv<'a> {
    /// The scopes, innermost last, as names and types.
    pub open spec fn scopes_v(&self) -> Seq<Seq<(Seq<char>, TypeV)>> {
        Seq::new(self.scopes@.len(), |i: int| field_views(self.scopes@[i]@))
    }

    /// An environment with one scope, seeded with the schema's globals.
    pub fn new(schema: &'a DomainSchema) -> (env: TypeEnv<'a>)
        ensures
            env.scopes_v() == seq![seeded(global_types(schema.globals@))],
            env.diagnostics@.len() == 0,
            env.inline_aliases@.len() == 0,
            *env.schema == *schema,
    {
        let ghost gs = global_types(schema.globals@);
        let mut globals: Vec<(String, Type)> = Vec::new();
        let mut i: usize = 0;
        proof {
            assert(gs.take(0) =~= Seq::<(Seq<char>, TypeV)>::empty());
            assert(field_views(globals@) =~= Seq::<(Seq<char>, TypeV)>::empty());
        }
        while i < schema.globals.len()
            invariant
                0 <= i <= schema.globals@.len(),
                gs == global_types(schema.globals@),
                field_views(globals@) == seeded(gs.take(i as int)),
            decreases schema.globals@.len() - i,
        {
            proof {
                assert(gs.take(i + 1).drop_last() =~= gs.take(i as int));
                assert(gs.take(i + 1).last() == gs[i as int]);
            }
            let name = &schema.globals[i].0;
            let ty = schema.globals[i].1.ty.deep_clone();
            insert_binding(&mut globals, name.as_str(), ty);
            i += 1;
        }
        proof {
            assert(gs.take(schema.globals@.len() as int) =~= gs);
        }
        let mut scopes: Vec<Vec<(String, Type)>> = Vec::new();
        scopes.push(globals);
        let env = TypeEnv { schema, inline_aliases: Vec::new(), scopes, diagnostics: Vec::new() };
        proof {
            assert(env.scopes_v() =~= seq![seeded(gs)]);
        }
        env
    }

    /// Opens a new, innermost scope.
    pub fn push_scope(&mut self)
        ensures
            final(self).scopes_v() == old(self).scopes_v().push(Seq::empty()),
            final(self).diagnostics@ == old(self).diagnostics@,
    {
        self.scopes.push(Vec::new());
        proof {
            assert(field_views(Seq::<(String, Type)>::empty()) =~= Seq::<(Seq<char>, TypeV)>::empty());
            assert(self.scopes_v() =~= old(self).scopes_v().push(Seq::empty()));
        }
    }

    /// Closes the innermost scope (nothing when there is none).
    pub fn pop_scope(&mut self)
        ensures
            final(self).scopes_v() == (if old(self).scopes_v().len() > 0 {
                old(self).scopes_v().drop_last()
            } else {
                old(self).scopes_v()
            }),
            final(self).diagnostics@ == old(self).diagnostics@,
    {
        let _ = self.scopes.pop();
        proof {
            if old(self).scopes@.len() > 0 {
                assert(self.scopes_v() =~= old(self).scopes_v().drop_last());
            } else {
                assert(self.scopes_v() =~= old(self).scopes_v());
            }
        }
    }

    /// Binds `name` to `ty` in the innermost scope (nothing with no scope).
    pub fn set_var(&mut self, name: &str, ty: Type)
        ensures
            final(self).scopes_v() == (if old(self).scopes_v().len() > 0 {
                old(self).scopes_v().update(
                    old(self).scopes_v().len() - 1,
                    scope_set(old(self).scopes_v().last(), name@, ty@),
                )
            } else {
                old(self).scopes_v()
            }),
            final(self).diagnostics@ == old(self).diagnostics@,
    {
        let n = self.scopes.len();
        if n > 0 {
            insert_binding(&mut self.scopes[n - 1], name, ty);
            proof {
                assert(self.scopes_v() =~= old(self).scopes_v().update(
                    n - 1,
                    scope_set(old(self).scopes_v().last(), name@, ty@),
                ));
            }
        }
    }

    /// Whether a domain schema was given (it has globals or functions).
    pub fn has_domain(&self) -> (r: bool)
        ensures
            r == (self.schema.globals@.len() > 0 || self.schema.functions@.len() > 0),
    {
        self.schema.globals.len() > 0 || self.schema.functions.len() > 0
    }

    /// The type of `name` in the innermost scope that binds it.
    pub fn lookup_var(&self, name: &str) -> (r: Option<Type>)
        ensures
            match r {
                Option::Some(t) => lookup_v(self.scopes_v(), name@) == Option::Some(t@),
                Option::None => lookup_v(self.scopes_v(), name@) is None,
            },
    {
        let ghost sv = self.scopes_v();
        let mut i = self.scopes.len();
        proof {
            assert(sv.take(i as int) =~= sv);
        }
        while i > 0
            invariant
                i <= self.scopes@.len(),
                sv == self.scopes_v(),
                lookup_v(sv, name@) == lookup_v(sv.take(i as int), name@),
            decreases i,
        {
            proof {
                assert(sv.take(i as int).drop_last() =~= sv.take(i - 1));
                assert(sv.take(i as int).last() == field_views(self.scopes@[i - 1]@));
            }
            match find_field(&self.scopes[i - 1], name) {
                Option::Some(k) => {
                    return Option::Some(self.scopes[i - 1][k].1.deep_clone());
                },
                Option::None => {},
            }
            i -= 1;
        }
        Option::None
    }

    /// Records an error.
    pub fn error(&mut self, span_start: usize, span_end: usize, message: String)
        ensures
            final(self).diagnostics@.len() == old(self).diagnostics@.len() + 1,
            final(self).diagnostics@.last().kind == DiagnosticKind::Error,
            final(self).diagnostics@.last().message@ == message@,
            final(self).diagnostics@.last().span_start == span_start,
            final(self).diagnostics@.last().span_end == span_end,
            final(self).diagnostics@.drop_last() == old(self).diagnostics@,
            final(self).scopes_v() == old(self).scopes_v(),
            final(self).schema == old(self).schema,
            final(self).inline_aliases@ == old(self).inline_aliases@,
    {
        self.diagnostics.push(Diagnostic { kind: DiagnosticKind::Error, span_start, span_end, message });
        proof {
            assert(self.diagnostics@.drop_last() =~= old(self).diagnostics@);
        }
    }

    /// Records a warning.
    pub fn warning(&mut self, span_start: usize, span_end: usize, message: String)
        ensures
            final(self).diagnostics@.len() == old(self).diagnostics@.len() + 1,
            final(self).diagnostics@.last().kind == DiagnosticKind::Warning,
            final(self).diagnostics@.last().message@ == message@,
            final(self).diagnostics@.last().span_start == span_start,
            final(self).diagnostics@.last().span_end == span_end,
            final(self).diagnostics@.drop_last() == old(self).diagnostics@,
            final(self).scopes_v() == old(self).scopes_v(),
            final(self).schema == old(self).schema,
            final(self).inline_aliases@ == old(self).inline_aliases@,
    {
        self.diagnostics.push(
            Diagnostic { kind: DiagnosticKind::Warning, span_start, span_end, message },
        );
        proof {
            assert(self.diagnostics@.drop_last() =~= old(self).diagnostics@);
        }
    }
}

/// The global named `name`, if any.
pub open spec fn global_of(gs: Seq<(String, GlobalEntry)>, name: Seq<char>) -> Option<GlobalEntry> {
    if str_index(global_names(gs), name) >= 0 {
        Option::Some(gs[str_index(global_names(gs), name)].1)
    } else {
        Option::None
    }
}

/// Whether some string of `v` is `s`.
pub open spec fn has_string(v: Seq<String>, s: Seq<char>) -> bool {
    exists|i: int| 0 <= i < v.len() && (#[trigger] v[i])@ == s
}

/// Whether a write to `field` of the global `root` is allowed: the global
/// is mutable, or lists the field's first segment or `*` among its mutable
/// fields. Names that are no global are local variables, which may be written.
pub open spec fn field_mutable(gs: Seq<(String, GlobalEntry)>, root: Seq<char>, field: Seq<char>) -> bool {
    match global_of(gs, root) {
        Option::Some(entry) => entry.mutable || has_string(entry.mutable_fields@, first_segment(field))
            || has_string(entry.mutable_fields@, seq!['*']),
        Option::None => true,
    }
}

/// The message for a write to a read-only property.
pub open spec fn readonly_message(field: Seq<char>, root: Seq<char>) -> Seq<char> {
    "cannot assign to read-only property '"@ + field + "' on '"@ + root + "'"@
}

/// Index of the global named `name`.
pub(crate) fn find_global(gs: &Vec<(String, GlobalEntry)>, name: &str) -> (r: Option<usize>)
    ensures
        match r {
            Option::Some(i) => str_index(global_names(gs@), name@) == i && i < gs@.len(),
            Option::None => str_index(global_names(gs@), name@) == -1,
        },
{
    let ghost names = global_names(gs@);
    proof {
        crate::heap::lemma_str_index(names, name@);
    }
    let mut i: usize = 0;
    while i < gs.len()
        invariant
            0 <= i <= gs@.len(),
            names == global_names(gs@),
            forall|j: int| 0 <= j < i ==> names[j] != name@,
            str_index(names, name@) == -1 ==> forall|j: int| 0 <= j < names.len() ==> names[j] != name@,
            str_index(names, name@) != -1 ==> 0 <= str_index(names, name@) < names.len()
                && names[str_index(names, name@)] == name@ && forall|j: int|
                0 <= j < str_index(names, name@) ==> names[j] != name@,
        decreases gs@.len() - i,
    {
        if str_eq(gs[i].0.as_str(), name) {
            proof {
                assert(names[i as int] == name@);
            }
            return Option::Some(i);
        }
        i += 1;
    }
    Option::None
}

/// Whether some string of `v` holds the characters `s`.
fn contains_string(v: &Vec<String>, s: &str) -> (r: bool)
    ensures
        r == has_string(v@, s@),
{
    let mut i: usize = 0;
    while i < v.len()
        invariant
            0 <= i <= v@.len(),
            forall|j: int| 0 <= j < i ==> (#[trigger] v@[j])@ != s@,
        decreases v@.len() - i,
    {
        if str_eq(v[i].as_str(), s) {
            return true;
        }
        i += 1;
    }
    false
}

pub proof fn lemma_dot_index(s: Seq<char>)
    ensures
        0 <= dot_index(s) <= s.len(),
        dot_index(s) < s.len() ==> s[dot_index(s)] == '.',
        forall|j: int| 0 <= j < dot_index(s) ==> s[j] != '.',
        s.contains('.') <==> dot_index(s) < s.len(),
    decreases s.len(),
{
    if s.len() > 0 && s[0] != '.' {
        lemma_dot_index(s.drop_first());
        assert forall|j: int| 0 <= j < dot_index(s) implies s[j] != '.' by {
            if j > 0 {
                assert(s[j] == s.drop_first()[j - 1]);
            }
        }
        if s.contains('.') {
            let k = choose|k: int| 0 <= k < s.len() && s[k] == '.';
            assert(s.drop_first()[k - 1] == '.');
        }
        if dot_index(s) < s.len() {
            assert(s.drop_first()[dot_index(s) - 1] == '.');
        }
    } else if s.len() > 0 {
        assert(s[0] == '.');
    }
}

/// Splits a dotted path at its first dot: the part before and the rest.
fn split_first_dot(s: &str) -> (r: Option<(String, String)>)
    ensures
        match r {
            Option::Some((a, b)) => s@.contains('.') && a@ == s@.take(dot_index(s@)) && b@ == s@.skip(
                dot_index(s@) + 1,
            ),
            Option::None => !s@.contains('.'),
        },
{
    let cs = str_chars(s);
    proof {
        lemma_dot_index(s@);
    }
    let mut k: usize = 0;
    while k < cs.len() && cs[k] != '.'
        invariant
            0 <= k <= cs@.len(),
            cs@ == s@,
            forall|j: int| 0 <= j < k ==> cs@[j] != '.',
        decreases cs@.len() - k,
    {
        k += 1;
    }
    proof {
        if k < cs@.len() && dot_index(s@) != k {
            if dot_index(s@) < k {
                assert(cs@[dot_index(s@)] != '.');
            } else {
                assert(s@[k as int] == '.');
            }
        }
        if k >= cs@.len() && s@.contains('.') {
            assert(s@[dot_index(s@)] == '.');
        }
    }
    if k >= cs.len() {
        return Option::None;
    }
    let a = crate::lexer::slice_chars(&cs, 0, k);
    let b = crate::lexer::slice_chars(&cs, k + 1, cs.len());
    proof {
        assert(a@ =~= s@.take(k as int));
        assert(b@ =~= s@.skip(k + 1));
    }
    Option::Some((crate::text::chars_to_string(&a), crate::text::chars_to_string(&b)))
}

/// The part of a dotted path before its first dot.
fn first_segment_of(s: &str) -> (r: String)
    ensures
        r@ == first_segment(s@),
{
    match split_first_dot(s) {
        Option::Some((a, _)) => a,
        Option::None => str_to_string(s),
    }
}

impl<'a> TypeEnv<'a> {
    /// Whether a write to `field` of `root` is allowed (see `field_mutable`).
    pub fn is_field_mutable(&self, root: &str, field: &str) -> (r: bool)
        ensures
            r == field_mutable(self.schema.globals@, root@, field@),
    {
        match find_global(&self.schema.globals, root) {
            Option::Some(i) => {
                let entry = &self.schema.globals[i].1;
                proof {
                    assert(global_of(self.schema.globals@, root@) == Option::Some(*entry));
                }
                if entry.mutable {
                    return true;
                }
                let first = first_segment_of(field);
                proof {
                    reveal_strlit("*");
                    assert("*"@ =~= seq!['*']);
                }
                contains_string(&entry.mutable_fields, first.as_str()) || contains_string(
                    &entry.mutable_fields,
                    "*",
                )
            },
            Option::None => true,
        }
    }

    /// Reports a write to `dotted_name` that the domain does not allow: a
    /// path `root.field...` on an immutable global whose field is read-only.
    pub fn check_mutability(&mut self, dotted_name: &str, span_start: usize, span_end: usize)
        ensures
            final(self).scopes_v() == old(self).scopes_v(),
            ({
                let d = dotted_name@;
                let root = d.take(dot_index(d));
                let field = d.skip(dot_index(d) + 1);
                if d.contains('.') && global_of(old(self).schema.globals@, root) is Some
                    && !field_mutable(old(self).schema.globals@, root, field) {
                    &&& final(self).diagnostics@.len() == old(self).diagnostics@.len() + 1
                    &&& final(self).diagnostics@.drop_last() == old(self).diagnostics@
                    &&& final(self).diagnostics@.last().kind == DiagnosticKind::Error
                    &&& final(self).diagnostics@.last().message@ == readonly_message(field, root)
                    &&& final(self).diagnostics@.last().span_start == span_start
                    &&& final(self).diagnostics@.last().span_end == span_end
                } else {
                    final(self).diagnostics@ == old(self).diagnostics@
                }
            }),
    {
        let (root, field) = match split_first_dot(dotted_name) {
            Option::Some(parts) => parts,
            Option::None => {
                return;
            },
        };
        match find_global(&self.schema.globals, root.as_str()) {
            Option::Some(i) => {
                if self.schema.globals[i].1.mutable {
                    return;
                }
                if !self.is_field_mutable(root.as_str(), field.as_str()) {
                    let mut message = str_to_string("cannot assign to read-only property '");
                    push_str(&mut message, field.as_str());
                    push_str(&mut message, "' on '");
                    push_str(&mut message, root.as_str());
                    push_str(&mut message, "'");
                    self.error(span_start, span_end, message);
                }
            },
            Option::None => {},
        }
    }
}

/// A constraint that a condition puts on a variable.
pub enum Narrowing {
    /// The variable exists (is not `none`): `when x do`.
    Exists(String),
    /// The variable has a type: `when isNumber(x) do`.
    TypePredicate(String, Type),
    /// The variable equals a literal: `when x == "GET" do`.
    Equals(String, Type),
    /// The variable is assigned in the condition: `when x = expr do`.
    Assigned(String, Type),
}

/// The model of a narrowing: its kind (0 to 3, in the order of the
/// variants), the variable's name and the type it carries.
pub open spec fn narrowing_v(n: Narrowing) -> (int, Seq<char>, TypeV) {
    match n {
        Narrowing::Exists(name) => (0, name@, TypeV::Never),
        Narrowing::TypePredicate(name, t) => (1, name@, t@),
        Narrowing::Equals(name, t) => (2, name@, t@),
        Narrowing::Assigned(name, t) => (3, name@, t@),
    }
}

/// The scopes after binding `name` to `ty` in the innermost one.
pub open spec fn set_innermost(scopes: Seq<Seq<(Seq<char>, TypeV)>>, name: Seq<char>, ty: TypeV) -> Seq<
    Seq<(Seq<char>, TypeV)>,
> {
    if scopes.len() > 0 {
        scopes.update(scopes.len() - 1, scope_set(scopes.last(), name, ty))
    } else {
        scopes
    }
}

/// The scopes after the narrowings of a condition that held: an existing
/// or assigned variable loses `none`, a type predicate or an equality gives
/// the variable that type.
pub open spec fn narrowed(scopes: Seq<Seq<(Seq<char>, TypeV)>>, ns: Seq<Narrowing>) -> Seq<
    Seq<(Seq<char>, TypeV)>,
>
    decreases ns.len(),
{
    if ns.len() == 0 {
        scopes
    } else {
        let before = narrowed(scopes, ns.drop_last());
        let (k, name, t) = narrowing_v(ns.last());
        if k == 0 {
            match lookup_v(before, name) {
                Option::Some(cur) => set_innermost(before, name, remove_none_v(cur)),
                Option::None => before,
            }
        } else if k == 3 {
            set_innermost(before, name, remove_none_v(t))
        } else {
            set_innermost(before, name, t)
        }
    }
}

/// The scopes after the narrowings of a condition that failed: an existing
/// or assigned variable is `none`; the others say nothing.
pub open spec fn narrowed_inverse(scopes: Seq<Seq<(Seq<char>, TypeV)>>, ns: Seq<Narrowing>) -> Seq<
    Seq<(Seq<char>, TypeV)>,
>
    decreases ns.len(),
{
    if ns.len() == 0 {
        scopes
    } else {
        let before = narrowed_inverse(scopes, ns.drop_last());
        let (k, name, _) = narrowing_v(ns.last());
        if k == 0 || k == 3 {
            set_innermost(before, name, TypeV::NoneType)
        } else {
            before
        }
    }
}

impl<'a> TypeEnv<'a> {
    /// Applies the narrowings of a condition that held to the innermost scope.
    pub fn apply_narrowings(&mut self, narrowings: &[Narrowing])
        ensures
            final(self).scopes_v() == narrowed(old(self).scopes_v(), narrowings@),
            final(self).diagnostics@ == old(self).diagnostics@,
    {
        let ghost s0 = self.scopes_v();
        let mut i: usize = 0;
        proof {
            assert(narrowings@.take(0) =~= Seq::<Narrowing>::empty());
        }
        while i < narrowings.len()
            invariant
                0 <= i <= narrowings@.len(),
                self.scopes_v() == narrowed(s0, narrowings@.take(i as int)),
                self.diagnostics@ == old(self).diagnostics@,
            decreases narrowings@.len() - i,
        {
            proof {
                assert(narrowings@.take(i + 1).drop_last() =~= narrowings@.take(i as int));
                assert(narrowings@.take(i + 1).last() == narrowings@[i as int]);
            }
            match &narrowings[i] {
                Narrowing::Exists(name) => {
                    match self.lookup_var(name.as_str()) {
                        Option::Some(ty) => {
                            let t = ty.remove_none();
                            self.set_var(name.as_str(), t);
                        },
                        Option::None => {},
                    }
                },
                Narrowing::TypePredicate(name, t) => {
                    self.set_var(name.as_str(), t.deep_clone());
                },
                Narrowing::Equals(name, t) => {
                    self.set_var(name.as_str(), t.deep_clone());
                },
                Narrowing::Assigned(name, t) => {
                    self.set_var(name.as_str(), t.remove_none());
                },
            }
            i += 1;
        }
        proof {
            assert(narrowings@.take(narrowings@.len() as int) =~= narrowings@);
        }
    }

    /// Applies the narrowings of a condition that failed (for its `else`).
    pub fn apply_narrowings_inverse(&mut self, narrowings: &[Narrowing])
        ensures
            final(self).scopes_v() == narrowed_inverse(old(self).scopes_v(), narrowings@),
            final(self).diagnostics@ == old(self).diagnostics@,
    {
        let ghost s0 = self.scopes_v();
        let mut i: usize = 0;
        proof {
            assert(narrowings@.take(0) =~= Seq::<Narrowing>::empty());
        }
        while i < narrowings.len()
            invariant
                0 <= i <= narrowings@.len(),
                self.scopes_v() == narrowed_inverse(s0, narrowings@.take(i as int)),
                self.diagnostics@ == old(self).diagnostics@,
            decreases narrowings@.len() - i,
        {
            proof {
                assert(narrowings@.take(i + 1).drop_last() =~= narrowings@.take(i as int));
                assert(narrowings@.take(i + 1).last() == narrowings@[i as int]);
            }
            match &narrowings[i] {
                Narrowing::Exists(name) => {
                    self.set_var(name.as_str(), Type::NoneType);
                },
                Narrowing::TypePredicate(_, _) => {},
                Narrowing::Equals(_, _) => {},
                Narrowing::Assigned(name, _) => {
                    self.set_var(name.as_str(), Type::NoneType);
                },
            }
            i += 1;
        }
        proof {
            assert(narrowings@.take(narrowings@.len() as int) =~= narrowings@);
        }
    }
}

/// The names of `t`'s references to types that neither alias table
/// defines, in order.
pub open spec fn unknown_refs(t: TypeV, a: Seq<(Seq<char>, TypeV)>, b: Seq<(Seq<char>, TypeV)>) -> Seq<
    Seq<char>,
>
    decreases t,
{
    match t {
        TypeV::Ref(n) => if key_index(a, n) >= 0 || key_index(b, n) >= 0 {
            Seq::empty()
        } else {
            seq![n]
        },
        TypeV::Array(e) => unknown_refs(*e, a, b),
        TypeV::Union(ts) => unknown_refs_all(ts, a, b),
        TypeV::Intersection(ts) => unknown_refs_all(ts, a, b),
        TypeV::Object { fields, wildcard } => unknown_refs_fields(fields, a, b) + match wildcard {
            Option::Some(w) => unknown_refs(*w, a, b),
            Option::None => Seq::empty(),
        },
        _ => Seq::empty(),
    }
}

pub open spec fn unknown_refs_all(ts: Seq<TypeV>, a: Seq<(Seq<char>, TypeV)>, b: Seq<(Seq<char>, TypeV)>) -> Seq<
    Seq<char>,
>
    decreases ts,
{
    if ts.len() == 0 {
        Seq::empty()
    } else {
        proof {
            assert(decreases_to!(ts => ts.drop_last()));
        }
        unknown_refs_all(ts.drop_last(), a, b) + unknown_refs(ts.last(), a, b)
    }
}

pub open spec fn unknown_refs_fields(
    fs: Seq<(Seq<char>, TypeV)>,
    a: Seq<(Seq<char>, TypeV)>,
    b: Seq<(Seq<char>, TypeV)>,
) -> Seq<Seq<char>>
    decreases fs,
{
    if fs.len() == 0 {
        Seq::empty()
    } else {
        proof {
            assert(decreases_to!(fs => fs.drop_last()));
        }
        unknown_refs_fields(fs.drop_last(), a, b) + unknown_refs(fs.last().1, a, b)
    }
}

/// The model of some diagnostics: kind, span and message of each.
pub open spec fn diag_views(ds: Seq<Diagnostic>) -> Seq<(DiagnosticKind, usize, usize, Seq<char>)> {
    Seq::new(ds.len(), |i: int| (ds[i].kind, ds[i].span_start, ds[i].span_end, ds[i].message@))
}

/// The errors for references to unknown types, one per name.
pub open spec fn unknown_type_errors(names: Seq<Seq<char>>, s: usize, e: usize) -> Seq<
    (DiagnosticKind, usize, usize, Seq<char>),
> {
    Seq::new(names.len(), |i: int| (DiagnosticKind::Error, s, e, "unknown type '"@ + names[i] + "'"@))
}

proof fn lemma_errors_add(x: Seq<Seq<char>>, y: Seq<Seq<char>>, s: usize, e: usize)
    ensures
        unknown_type_errors(x + y, s, e) == unknown_type_errors(x, s, e) + unknown_type_errors(y, s, e),
{
    assert(unknown_type_errors(x + y, s, e) =~= unknown_type_errors(x, s, e) + unknown_type_errors(
        y,
        s,
        e,
    ));
}

impl<'a> TypeEnv<'a> {
    /// Reports each reference in `ty` to a type that no alias defines.
    #[verifier::loop_isolation(false)]
    pub fn validate_type(&mut self, ty: &Type, span_start: usize, span_end: usize)
        ensures
            diag_views(final(self).diagnostics@) == diag_views(old(self).diagnostics@)
                + unknown_type_errors(
                unknown_refs(
                    ty@,
                    field_views(old(self).schema.type_aliases@),
                    field_views(old(self).inline_aliases@),
                ),
                span_start,
                span_end,
            ),
            final(self).scopes_v() == old(self).scopes_v(),
            final(self).schema == old(self).schema,
            final(self).inline_aliases@ == old(self).inline_aliases@,
        decreases ty,
    {
        let ghost a = field_views(self.schema.type_aliases@);
        let ghost b = field_views(self.inline_aliases@);
        let ghost d0 = diag_views(self.diagnostics@);
        proof {
            lemma_view_shapes(*ty);
        }
        match ty {
            Type::Ref(name) => {
                let known = find_field(&self.schema.type_aliases, name.as_str()).is_some()
                    || find_field(&self.inline_aliases, name.as_str()).is_some();
                if !known {
                    let mut message = str_to_string("unknown type '");
                    push_str(&mut message, name.as_str());
                    push_str(&mut message, "'");
                    self.error(span_start, span_end, message);
                    proof {
                        assert(diag_views(self.diagnostics@) =~= d0 + unknown_type_errors(
                            seq![name@],
                            span_start,
                            span_end,
                        ));
                    }
                } else {
                    proof {
                        assert(d0 + unknown_type_errors(Seq::empty(), span_start, span_end) =~= d0);
                    }
                }
            },
            Type::Array(e) => {
                self.validate_type(e, span_start, span_end);
            },
            Type::Union(ts) => {
                self.validate_all(ts, span_start, span_end);
                proof {
                    assert(ty@ matches TypeV::Union(x) && x == views(ts@));
                }
            },
            Type::Intersection(ts) => {
                self.validate_all(ts, span_start, span_end);
                proof {
                    assert(ty@ matches TypeV::Intersection(x) && x == views(ts@));
                }
            },
            Type::Object { fields, wildcard } => {
                proof {
                    assert(ty@ matches TypeV::Object { fields: x, wildcard: w } && x == field_views(
                        fields@,
                    ) && w == wildcard_view(*wildcard));
                }
                self.validate_fields(fields, span_start, span_end);
                let ghost d1 = diag_views(self.diagnostics@);
                match wildcard {
                    Option::Some(w) => {
                        self.validate_type(w, span_start, span_end);
                        proof {
                            lemma_errors_add(
                                unknown_refs_fields(field_views(fields@), a, b),
                                unknown_refs(w@, a, b),
                                span_start,
                                span_end,
                            );
                            assert(diag_views(self.diagnostics@) =~= d0 + unknown_type_errors(
                                unknown_refs_fields(field_views(fields@), a, b) + unknown_refs(
                                    w@,
                                    a,
                                    b,
                                ),
                                span_start,
                                span_end,
                            ));
                        }
                    },
                    Option::None => {
                        proof {
                            assert(unknown_refs_fields(field_views(fields@), a, b)
                                + Seq::<Seq<char>>::empty() =~= unknown_refs_fields(
                                field_views(fields@),
                                a,
                                b,
                            ));
                        }
                    },
                }
            },
            _ => {
                proof {
                    assert(d0 + unknown_type_errors(Seq::empty(), span_start, span_end) =~= d0);
                }
            },
        }
    }

    /// Validates each member type, in order.
    #[verifier::loop_isolation(false)]
    fn validate_all(&mut self, ts: &Vec<Type>, span_start: usize, span_end: usize)
        ensures
            diag_views(final(self).diagnostics@) == diag_views(old(self).diagnostics@)
                + unknown_type_errors(
                unknown_refs_all(
                    views(ts@),
                    field_views(old(self).schema.type_aliases@),
                    field_views(old(self).inline_aliases@),
                ),
                span_start,
                span_end,
            ),
            final(self).scopes_v() == old(self).scopes_v(),
            final(self).schema == old(self).schema,
            final(self).inline_aliases@ == old(self).inline_aliases@,
        decreases ts,
    {
        let ghost a = field_views(self.schema.type_aliases@);
        let ghost b = field_views(self.inline_aliases@);
        let ghost d0 = diag_views(self.diagnostics@);
        let ghost vs = views(ts@);
        let mut i: usize = 0;
        proof {
            assert(vs.take(0) =~= Seq::<TypeV>::empty());
            assert(d0 + unknown_type_errors(Seq::empty(), span_start, span_end) =~= d0);
        }
        while i < ts.len()
            invariant
                0 <= i <= ts@.len(),
                diag_views(self.diagnostics@) == d0 + unknown_type_errors(
                    unknown_refs_all(vs.take(i as int), a, b),
                    span_start,
                    span_end,
                ),
                self.scopes_v() == old(self).scopes_v(),
                self.schema == old(self).schema,
                self.inline_aliases@ == old(self).inline_aliases@,
            decreases ts@.len() - i,
        {
            proof {
                assert(vs.take(i + 1).drop_last() =~= vs.take(i as int));
                assert(decreases_to!(ts => ts@));
                assert(decreases_to!(ts@ => ts@[i as int]));
                lemma_errors_add(
                    unknown_refs_all(vs.take(i as int), a, b),
                    unknown_refs(vs[i as int], a, b),
                    span_start,
                    span_end,
                );
            }
            let ghost before = diag_views(self.diagnostics@);
            self.validate_type(&ts[i], span_start, span_end);
            proof {
                assert(d0 + unknown_type_errors(unknown_refs_all(vs.take(i as int), a, b), span_start, span_end)
                    + unknown_type_errors(unknown_refs(vs[i as int], a, b), span_start, span_end) =~= d0
                    + unknown_type_errors(unknown_refs_all(vs.take(i + 1), a, b), span_start, span_end));
            }
            i += 1;
        }
        proof {
            assert(vs.take(ts@.len() as int) =~= vs);
        }
    }

    /// Validates the type of each field, in order.
    #[verifier::loop_isolation(false)]
    fn validate_fields(&mut self, fs: &Vec<(String, Type)>, span_start: usize, span_end: usize)
        ensures
            diag_views(final(self).diagnostics@) == diag_views(old(self).diagnostics@)
                + unknown_type_errors(
                unknown_refs_fields(
                    field_views(fs@),
                    field_views(old(self).schema.type_aliases@),
                    field_views(old(self).inline_aliases@),
                ),
                span_start,
                span_end,
            ),
            final(self).scopes_v() == old(self).scopes_v(),
            final(self).schema == old(self).schema,
            final(self).inline_aliases@ == old(self).inline_aliases@,
        decreases fs,
    {
        let ghost a = field_views(self.schema.type_aliases@);
        let ghost b = field_views(self.inline_aliases@);
        let ghost d0 = diag_views(self.diagnostics@);
        let ghost fv = field_views(fs@);
        let mut i: usize = 0;
        proof {
            assert(fv.take(0) =~= Seq::<(Seq<char>, TypeV)>::empty());
            assert(d0 + unknown_type_errors(Seq::empty(), span_start, span_end) =~= d0);
        }
        while i < fs.len()
            invariant
                0 <= i <= fs@.len(),
                diag_views(self.diagnostics@) == d0 + unknown_type_errors(
                    unknown_refs_fields(fv.take(i as int), a, b),
                    span_start,
                    span_end,
                ),
                self.scopes_v() == old(self).scopes_v(),
                self.schema == old(self).schema,
                self.inline_aliases@ == old(self).inline_aliases@,
            decreases fs@.len() - i,
        {
            proof {
                assert(fv.take(i + 1).drop_last() =~= fv.take(i as int));
                assert(decreases_to!(fs => fs@));
                assert(decreases_to!(fs@ => fs@[i as int]));
                assert(decreases_to!(fs@[i as int] => fs@[i as int].1));
                lemma_errors_add(
                    unknown_refs_fields(fv.take(i as int), a, b),
                    unknown_refs(fv[i as int].1, a, b),
                    span_start,
                    span_end,
                );
            }
            self.validate_type(&fs[i].1, span_start, span_end);
            proof {
                assert(d0 + unknown_type_errors(unknown_refs_fields(fv.take(i as int), a, b), span_start, span_end)
                    + unknown_type_errors(unknown_refs(fv[i as int].1, a, b), span_start, span_end) =~= d0
                    + unknown_type_errors(unknown_refs_fields(fv.take(i + 1), a, b), span_start, span_end));
            }
            i += 1;
        }
        proof {
            assert(fv.take(fs@.len() as int) =~= fv);
        }
    }
}

/// Binds `name` to `ty` in a scope (see `scope_set`).
fn insert_binding(scope: &mut Vec<(String, Type)>, name: &str, ty: Type)
    ensures
        field_views(final(scope)@) == scope_set(field_views(old(scope)@), name@, ty@),
{
    let ghost before = field_views(scope@);
    match find_field(scope, name) {
        Option::Some(k) => {
            scope.set(k, (str_to_string(name), ty));
            proof {
                assert(field_views(scope@) =~= before.update(k as int, (name@, ty@)));
            }
        },
        Option::None => {
            scope.push((str_to_string(name), ty));
            proof {
                assert(field_views(scope@) =~= before.push((name@, ty@)));
            }
        },
    }
}

// ── Laws ────────────────────────────────────────────────────────────────

/// A variable read right after it is bound in the innermost scope has the
/// type it was bound to.
pub proof fn law_set_then_lookup(scopes: Seq<Seq<(Seq<char>, TypeV)>>, name: Seq<char>, ty: TypeV)
    requires
        scopes.len() > 0,
    ensures
        lookup_v(scopes.update(scopes.len() - 1, scope_set(scopes.last(), name, ty)), name)
            == Option::Some(ty),
{
    let s2 = scopes.update(scopes.len() - 1, scope_set(scopes.last(), name, ty));
    assert(s2.last() == scope_set(scopes.last(), name, ty));
    lemma_key_index_set(scopes.last(), name, ty);
}

/// After `scope_set`, the name is found where it was set.
proof fn lemma_key_index_set(scope: Seq<(Seq<char>, TypeV)>, name: Seq<char>, ty: TypeV)
    ensures
        key_index(scope_set(scope, name, ty), name) >= 0,
        scope_set(scope, name, ty)[key_index(scope_set(scope, name, ty), name)].1 == ty,
{
    lemma_key_index_first(scope, name, 0);
    let s2 = scope_set(scope, name, ty);
    if key_index(scope, name) >= 0 {
        let k = key_index(scope, name);
        lemma_key_index_is(s2, name, k);
    } else {
        lemma_key_index_is(s2, name, scope.len() as int);
    }
}

/// `key_index_from` gives the first matching index at or after `i`.
proof fn lemma_key_index_first(fs: Seq<(Seq<char>, TypeV)>, key: Seq<char>, i: int)
    requires
        0 <= i,
    ensures
        crate::types::key_index_from(fs, key, i) == -1 ==> forall|j: int|
            i <= j < fs.len() ==> fs[j].0 != key,
        crate::types::key_index_from(fs, key, i) != -1 ==> i <= crate::types::key_index_from(
            fs,
            key,
            i,
        ) < fs.len() && fs[crate::types::key_index_from(fs, key, i)].0 == key && forall|j: int|
            i <= j < crate::types::key_index_from(fs, key, i) ==> fs[j].0 != key,
    decreases fs.len() - i,
{
    if i < fs.len() && fs[i].0 != key {
        lemma_key_index_first(fs, key, i + 1);
    }
}

/// The first index with the key is `p`.
proof fn lemma_key_index_is(fs: Seq<(Seq<char>, TypeV)>, key: Seq<char>, p: int)
    requires
        0 <= p < fs.len(),
        fs[p].0 == key,
        forall|j: int| 0 <= j < p ==> fs[j].0 != key,
    ensures
        key_index(fs, key) == p,
{
    lemma_key_index_first(fs, key, 0);
    let q = key_index(fs, key);
    if q == -1 {
        assert(fs[p].0 == key);
    } else if q < p {
        assert(fs[q].0 == key);
    } else if q > p {
        assert(fs[p].0 != key);
    }
}

/// Opening a scope hides nothing, and closing it restores the scopes.
pub proof fn law_push_pop_scope(scopes: Seq<Seq<(Seq<char>, TypeV)>>, name: Seq<char>)
    ensures
        lookup_v(scopes.push(Seq::empty()), name) == lookup_v(scopes, name),
        scopes.push(Seq::empty()).drop_last() == scopes,
{
    let s2 = scopes.push(Seq::empty());
    assert(s2.drop_last() =~= scopes);
    assert(key_index(Seq::<(Seq<char>, TypeV)>::empty(), name) == -1);
}

/// A binding in an inner scope shadows outer ones until the scope closes.
pub proof fn law_shadowing(scopes: Seq<Seq<(Seq<char>, TypeV)>>, name: Seq<char>, ty: TypeV)
    ensures
        ({
            let inner = scopes.push(Seq::empty());
            let bound = inner.update(inner.len() - 1, scope_set(inner.last(), name, ty));
            lookup_v(bound, name) == Option::Some(ty) && lookup_v(bound.drop_last(), name)
                == lookup_v(scopes, name)
        }),
{
    let inner = scopes.push(Seq::empty());
    let bound = inner.update(inner.len() - 1, scope_set(inner.last(), name, ty));
    law_set_then_lookup(inner, name, ty);
    assert(bound.drop_last() =~= scopes);
}

} // verus!
