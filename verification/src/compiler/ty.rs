//! Types and the scoped symbol stack.
use vstd::prelude::*;
use vstd::std_specs::cmp::PartialEqSpec;

use crate::arena::{Handle, TypedArena};
use crate::arena::{eq_symmetric, holds_equal, InternedArena};
use crate::intern::{Interned, Interner};

verus! {

/// A C type. Component types are handles into the type interner.
#[derive(Debug)]
pub enum Ty<'src> {
    Int,
    Function { ret: Handle, params: Vec<Handle> },
    Adt { def: Interned<'src>, members: Vec<Handle> },
    Poisoned,
}

/// Two types are equal when they are built the same way from equal parts.
pub open spec fn same_ty<'src>(a: Ty<'src>, b: Ty<'src>) -> bool {
    match (a, b) {
        (Ty::Int, Ty::Int) => true,
        (Ty::Poisoned, Ty::Poisoned) => true,
        (Ty::Function { ret: r1, params: p1 }, Ty::Function { ret: r2, params: p2 }) => r1 == r2 && p1@ == p2@,
        (Ty::Adt { def: d1, members: m1 }, Ty::Adt { def: d2, members: m2 }) => d1.index() == d2.index() && m1@ == m2@,
        _ => false,
    }
}

/// Elementwise equality of two handle lists.
fn same_handles(a: &Vec<Handle>, b: &Vec<Handle>) -> (r: bool)
    ensures
        r == (a@ == b@),
{
    if a.len() != b.len() {
        return false;
    }
    let mut i: usize = 0;
    while i < a.len()
        invariant
            a@.len() == b@.len(),
            0 <= i <= a@.len(),
            forall|k: int| 0 <= k < i ==> a@[k] == b@[k],
        decreases a@.len() - i,
    {
        if a[i] != b[i] {
            return false;
        }
        i += 1;
    }
    proof {
        assert(a@ =~= b@);
    }
    true
}

impl<'src> PartialEq for Ty<'src> {
    fn eq(&self, other: &Self) -> (r: bool) {
        let r = match (self, other) {
            (Ty::Int, Ty::Int) => true,
            (Ty::Poisoned, Ty::Poisoned) => true,
            (Ty::Function { ret: r1, params: p1 }, Ty::Function { ret: r2, params: p2 }) => {
                *r1 == *r2 && same_handles(p1, p2)
            },
            (Ty::Adt { def: d1, members: m1 }, Ty::Adt { def: d2, members: m2 }) => {
                d1.id() == d2.id() && same_handles(m1, m2)
            },
            _ => false,
        };
        r
    }
}

impl<'src> vstd::std_specs::cmp::PartialEqSpecImpl for Ty<'src> {
    open spec fn obeys_eq_spec() -> bool {
        true
    }

    open spec fn eq_spec(&self, other: &Self) -> bool {
        same_ty(*self, *other)
    }
}

/// The types that have a written form: function and aggregate types have
/// none yet.
pub open spec fn ty_printable(t: Ty) -> bool {
    t is Int || t is Poisoned
}

/// The written form of a printable type.
pub open spec fn ty_text(t: Ty) -> Seq<char> {
    if t is Int {
        "int"@
    } else {
        "poisoned"@
    }
}

impl<'src> Ty<'src> {
    /// The written form of the type.
    pub fn text(&self) -> (r: &'static str)
        requires
            ty_printable(*self),
        ensures
            r@ == ty_text(*self),
    {
        match self {
            Ty::Int => "int",
            _ => "poisoned",
        }
    }
}

/// Interns types, so that equal types get the same handle.
pub type TyInterner<'src> = InternedArena<Ty<'src>>;

/// The type names in scope, each bound to a type handle.
pub type TyStack<'src> = ScopeStack<Interned<'src>, Handle>;

/// Equality of types is symmetric.
pub proof fn lemma_ty_eq_symmetric<'src>()
    ensures
        eq_symmetric::<Ty<'src>>(),
{
}

/// A fresh type interner.
pub fn new_ty_interner<'src>() -> (r: TyInterner<'src>)
    ensures
        r.wf(),
        r.values().len() == 0,
        r.base() == 0,
{
    let r = InternedArena::new(TypedArena::new());
    proof {
        assert(r.values().subrange(0, 0) =~= Seq::<Ty<'src>>::empty());
    }
    r
}

/// The type names every program starts with: `int`, then the empty name.
pub open spec fn built_in_names(names: Seq<(Seq<char>, Handle)>) -> bool {
    &&& names.len() == 2
    &&& names[0].0 == seq!['i', 'n', 't']
    &&& names[1].0 == Seq::<char>::empty()
}

/// The type names a program starts with when the types are interned
/// afresh: `int` bound to the first type, the empty name to the second.
pub open spec fn built_in_scope() -> Seq<(Seq<char>, Handle)> {
    seq![(seq!['i', 'n', 't'], Handle { index: 0 }), (Seq::<char>::empty(), Handle { index: 1 })]
}

/// The strings of an interner after interning `x`.
pub open spec fn with_string(ss: Seq<Seq<char>>, x: Seq<char>) -> Seq<Seq<char>> {
    if ss.contains(x) {
        ss
    } else {
        ss.push(x)
    }
}

/// The values of an interning arena after interning `t`.
pub open spec fn with_ty<'src>(vs: Seq<Ty<'src>>, base: int, t: Ty<'src>) -> Seq<Ty<'src>> {
    if holds_equal(vs, base, t) {
        vs
    } else {
        vs.push(t)
    }
}

/// The type names every program starts with: `int`, and the empty name
/// bound to the poisoned type.
pub fn built_in_types<'src>(id_interner: &mut Interner<'src>, ty_arena: &mut TyInterner<'src>) -> (types: TyStack<'src>)
    requires
        old(id_interner).wf(),
        old(ty_arena).wf(),
    ensures
        final(id_interner).wf(),
        final(ty_arena).wf(),
        types.wf(),
        types.model().bottom == 0,
        forall|i: int| 0 <= i < types.model().entries.len() ==> final(id_interner).issued(#[trigger] types.model().entries[i].0),
        types.model().entries.len() == 2,
        types.model().entries[0].0.text() == seq!['i', 'n', 't'],
        types.model().entries[1].0.text() == Seq::<char>::empty(),
        final(ty_arena).values()[types.model().entries[0].1.index as int] == Ty::<'src>::Int,
        final(ty_arena).values()[types.model().entries[1].1.index as int] == Ty::<'src>::Poisoned,
        types.model().entries[0].1.index < final(ty_arena).values().len(),
        types.model().entries[1].1.index < final(ty_arena).values().len(),
        final(id_interner).strings() == with_string(with_string(old(id_interner).strings(), seq!['i', 'n', 't']), Seq::<char>::empty()),
        final(ty_arena).base() == old(ty_arena).base(),
        old(ty_arena).values().len() == 0 ==> types.model().entries[0].1 == (Handle { index: 0 })
            && types.model().entries[1].1 == (Handle { index: 1 }),
        final(ty_arena).values() == with_ty(
            with_ty(old(ty_arena).values(), old(ty_arena).base() as int, Ty::Int),
            old(ty_arena).base() as int,
            Ty::Poisoned,
        ),
{
    proof {
        lemma_ty_eq_symmetric();
    }
    let mut types = TyStack::new();
    let int_name = "int";
    proof {
        reveal_strlit("int");
    }
    let name = id_interner.intern(int_name);
    let ty = ty_arena.intern(Ty::Int);
    types.push(name, ty);
    let poisoned_name = "";
    proof {
        reveal_strlit("");
    }
    let name = id_interner.intern(poisoned_name);
    let ghost before = ty_arena.values();
    let ty = ty_arena.intern(Ty::Poisoned);
    proof {
        assert(ty_arena.values()[0] == Ty::<'src>::Int || true);
    }
    types.push(name, ty);
    proof {
        if old(ty_arena).values().len() == 0 {
            assert(!holds_equal(old(ty_arena).values(), old(ty_arena).base() as int, Ty::Int));
            let v1 = with_ty(old(ty_arena).values(), old(ty_arena).base() as int, Ty::Int);
            assert(v1 =~= seq![Ty::<'src>::Int]);
            assert(!same_ty(Ty::<'src>::Int, Ty::<'src>::Poisoned));
            assert(!holds_equal(v1, old(ty_arena).base() as int, Ty::Poisoned));
            assert(ty_arena.values() =~= seq![Ty::<'src>::Int, Ty::<'src>::Poisoned]);
        }
        assert(types.model().entries[0].0.text() == seq!['i', 'n', 't']);
        assert(types.model().entries[1].0.text() == Seq::<char>::empty());
        assert(id_interner.issued(types.model().entries[0].0));
    }
    types
}

/// The abstract content of a scope stack: the bindings, oldest first, and
/// where the innermost scope begins.
pub struct ScopeModel<K, V> {
    pub entries: Seq<(K, V)>,
    pub bottom: nat,
}

impl<K, V> ScopeModel<K, V> {
    /// Entering a scope: the current top becomes the scope's bottom; the old
    /// bottom is handed back.
    pub open spec fn enter(self) -> (Self, nat) {
        (ScopeModel { entries: self.entries, bottom: self.entries.len() }, self.bottom)
    }

    /// Leaving a scope: its bindings are dropped and the saved bottom is
    /// restored.
    pub open spec fn exit(self, old_bottom: nat) -> Self {
        ScopeModel { entries: self.entries.take(self.bottom as int), bottom: old_bottom }
    }

    /// Adding a binding to the innermost scope.
    pub open spec fn push(self, key: K, item: V) -> Self {
        ScopeModel { entries: self.entries.push((key, item)), bottom: self.bottom }
    }

    /// Adding several bindings to the innermost scope.
    pub open spec fn push_all(self, items: Seq<(K, V)>) -> Self {
        ScopeModel { entries: self.entries + items, bottom: self.bottom }
    }
}

/// The most recent binding of `key` among `entries`.
pub open spec fn lookup<K: PartialEq, V>(entries: Seq<(K, V)>, key: K) -> Option<V>
    decreases entries.len(),
{
    if entries.len() == 0 {
        None
    } else if entries.last().0.eq_spec(&key) {
        Some(entries.last().1)
    } else {
        lookup(entries.drop_last(), key)
    }
}

/// `key` is bound in the innermost scope.
pub open spec fn bound_in_scope<K: PartialEq, V>(m: ScopeModel<K, V>, key: K) -> bool {
    exists|i: int| m.bottom <= i < m.entries.len() && m.entries[i].0.eq_spec(&key)
}

/// Bindings in nested scopes: a name resolves to its most recent binding.
pub struct ScopeStack<K, V> {
    stack: Vec<(K, V)>,
    scope_bottom: usize,
}

impl<K, V> ScopeStack<K, V> {
    pub closed spec fn model(&self) -> ScopeModel<K, V> {
        ScopeModel { entries: self.stack@, bottom: self.scope_bottom as nat }
    }

    /// The innermost scope begins within the stack.
    pub closed spec fn wf(&self) -> bool {
        self.scope_bottom <= self.stack@.len()
    }
}

impl<K: PartialEq, V> ScopeStack<K, V> {

    pub fn new() -> (r: Self)
        ensures
            r.wf(),
            r.model().entries == Seq::<(K, V)>::empty(),
            r.model().bottom == 0,
    {
        ScopeStack { stack: Vec::new(), scope_bottom: 0 }
    }

    /// Where the innermost scope begins.
    pub fn model_bottom(&self) -> (r: usize)
        ensures
            r == self.model().bottom,
    {
        self.scope_bottom
    }

    /// Opens a scope; returns the value that `exit_scope` needs to close it.
    pub fn enter_scope(&mut self) -> (saved: usize)
        requires
            old(self).wf(),
        ensures
            final(self).wf(),
            (final(self).model(), saved as nat) == old(self).model().enter(),
            saved <= final(self).model().bottom,
    {
        let old_scope_bottom = self.scope_bottom;
        self.scope_bottom = self.stack.len();
        old_scope_bottom
    }

    /// Closes the innermost scope, dropping its bindings.
    pub fn exit_scope(&mut self, old_scope_bottom: usize)
        requires
            old(self).wf(),
            old_scope_bottom <= old(self).model().bottom,
        ensures
            final(self).wf(),
            final(self).model() == old(self).model().exit(old_scope_bottom as nat),
    {
        self.stack.truncate(self.scope_bottom);
        self.scope_bottom = old_scope_bottom;
        proof {
            assert(self.stack@ =~= old(self).stack@.take(old(self).scope_bottom as int));
        }
    }

    /// Binds `key` to `item` in the innermost scope.
    pub fn push(&mut self, key: K, item: V)
        requires
            old(self).wf(),
        ensures
            final(self).wf(),
            final(self).model() == old(self).model().push(key, item),
    {
        self.stack.push((key, item));
    }

    /// Whether `key` is bound in the innermost scope.
    pub fn in_scope(&self, key: &K) -> (r: bool)
        requires
            self.wf(),
        ensures
            K::obeys_eq_spec() ==> r == bound_in_scope(self.model(), *key),
    {
        let mut i = self.scope_bottom;
        while i < self.stack.len()
            invariant
                self.wf(),
                self.scope_bottom <= i <= self.stack@.len(),
                K::obeys_eq_spec() ==> forall|k: int| self.scope_bottom <= k < i ==> !self.stack@[k].0.eq_spec(key),
            decreases self.stack@.len() - i,
        {
            if self.stack[i].0 == *key {
                proof {
                    if K::obeys_eq_spec() {
                        assert(self.stack@[i as int].0.eq_spec(key));
                        assert(self.model().entries[i as int].0.eq_spec(key));
                        assert(self.model().bottom <= i < self.model().entries.len());
                    }
                }
                return true;
            }
            i += 1;
        }
        false
    }

    /// The value of the most recent binding of `key` in the innermost scope.
    pub fn get_in_scope(&self, key: &K) -> (r: Option<&V>)
        requires
            self.wf(),
        ensures
            K::obeys_eq_spec() ==> match lookup(self.model().entries.subrange(self.model().bottom as int, self.model().entries.len() as int), *key) {
                Some(v) => r == Some(&v),
                None => r is None,
            },
    {
        let ghost inner = self.stack@.subrange(self.scope_bottom as int, self.stack@.len() as int);
        let mut i = self.stack.len();
        proof {
            assert(inner.take((i - self.scope_bottom) as int) =~= inner);
        }
        while i > self.scope_bottom
            invariant
                self.wf(),
                self.scope_bottom <= i <= self.stack@.len(),
                inner == self.stack@.subrange(self.scope_bottom as int, self.stack@.len() as int),
                K::obeys_eq_spec() ==> lookup(inner, *key) == lookup(inner.take((i - self.scope_bottom) as int), *key),
            decreases i,
        {
            let ghost prefix = inner.take((i - self.scope_bottom) as int);
            if self.stack[i - 1].0 == *key {
                proof {
                    assert(prefix.last() == self.stack@[i - 1]);
                }
                return Some(&self.stack[i - 1].1);
            }
            proof {
                assert(prefix.drop_last() =~= inner.take((i - 1 - self.scope_bottom) as int));
            }
            i -= 1;
        }
        proof {
            assert(inner.take(0) =~= Seq::<(K, V)>::empty());
        }
        None
    }

    /// The value of the most recent binding of `key`, in any scope.
    pub fn get(&self, key: &K) -> (r: Option<&V>)
        ensures
            K::obeys_eq_spec() ==> match lookup(self.model().entries, *key) {
                Some(v) => r == Some(&v),
                None => r is None,
            },
    {
        let mut i = self.stack.len();
        proof {
            assert(self.stack@.take(i as int) =~= self.stack@);
        }
        while i > 0
            invariant
                i <= self.stack@.len(),
                K::obeys_eq_spec() ==> lookup(self.stack@, *key) == lookup(self.stack@.take(i as int), *key),
            decreases i,
        {
            let ghost prefix = self.stack@.take(i as int);
            if self.stack[i - 1].0 == *key {
                proof {
                    assert(prefix.last() == self.stack@[i - 1]);
                }
                return Some(&self.stack[i - 1].1);
            }
            proof {
                assert(prefix.drop_last() =~= self.stack@.take(i - 1));
            }
            i -= 1;
        }
        proof {
            assert(self.stack@.take(0) =~= Seq::<(K, V)>::empty());
        }
        None
    }
}

/// A binding pushed last is what `get` finds for its key; other keys see
/// what they saw before.
pub proof fn law_lookup_after_push<K: PartialEq, V>(entries: Seq<(K, V)>, key: K, item: V, probe: K)
    ensures
        lookup(entries.push((key, item)), probe) == if key.eq_spec(&probe) {
            Some(item)
        } else {
            lookup(entries, probe)
        },
{
    assert(entries.push((key, item)).drop_last() =~= entries);
}

/// Entering a scope, binding anything in it, and leaving it restores the
/// stack exactly as it was.
pub proof fn law_scope_round_trip<K, V>(m: ScopeModel<K, V>, items: Seq<(K, V)>)
    ensures
        m.enter().0.push_all(items).exit(m.enter().1) == m,
{
    assert(m.enter().0.push_all(items).exit(m.enter().1).entries =~= m.entries);
}

/// What a checker does to a scope stack, with every scope it enters left
/// again: binding a name, or a nested scope holding more of the same.
pub enum ScopeWork<K, V> {
    Bind(K, V),
    Nested(Seq<ScopeWork<K, V>>),
}

/// The scope stack after doing `work` in order, starting from `m`.
pub open spec fn apply_work<K, V>(m: ScopeModel<K, V>, work: Seq<ScopeWork<K, V>>) -> ScopeModel<K, V>
    decreases work,
{
    if work.len() == 0 {
        m
    } else {
        let m1 = match work[0] {
            ScopeWork::Bind(k, v) => m.push(k, v),
            ScopeWork::Nested(inner) => {
                let (entered, saved) = m.enter();
                apply_work(entered, inner).exit(saved)
            },
        };
        apply_work(m1, work.drop_first())
    }
}

/// Doing `work` only adds bindings to the innermost scope.
proof fn lemma_work_adds<K, V>(m: ScopeModel<K, V>, work: Seq<ScopeWork<K, V>>)
    requires
        m.bottom <= m.entries.len(),
    ensures
        apply_work(m, work).bottom == m.bottom,
        m.entries.len() <= apply_work(m, work).entries.len(),
        apply_work(m, work).entries.take(m.entries.len() as int) == m.entries,
    decreases work,
{
    if work.len() > 0 {
        let m1 = match work[0] {
            ScopeWork::Bind(k, v) => m.push(k, v),
            ScopeWork::Nested(inner) => {
                let (entered, saved) = m.enter();
                assert(decreases_to!(work => work[0]));
                lemma_work_adds(entered, inner);
                let after = apply_work(entered, inner);
                assert(after.entries.take(entered.bottom as int) =~= m.entries);
                after.exit(saved)
            },
        };
        assert(m1.entries.take(m.entries.len() as int) =~= m.entries);
        lemma_work_adds(m1, work.drop_first());
        let m2 = apply_work(m1, work.drop_first());
        assert(m2.entries.take(m.entries.len() as int) =~= m1.entries.take(m.entries.len() as int));
    }
}

/// Entering a scope, doing any work in it, nested scopes included, each
/// left again, and leaving it restores the stack exactly as it was.
pub proof fn law_nested_scopes_round_trip<K, V>(m: ScopeModel<K, V>, work: Seq<ScopeWork<K, V>>)
    requires
        m.bottom <= m.entries.len(),
    ensures
        apply_work(m, seq![ScopeWork::Nested(work)]) == m,
{
    let (entered, saved) = m.enter();
    lemma_work_adds(entered, work);
    let after = apply_work(entered, work);
    assert(after.entries.take(entered.bottom as int) =~= m.entries);
    let one = seq![ScopeWork::Nested(work)];
    assert(one[0] == ScopeWork::Nested(work));
    assert(one.drop_first() =~= Seq::<ScopeWork<K, V>>::empty());
    assert(after.exit(saved).entries =~= m.entries);
    assert(apply_work(after.exit(saved), one.drop_first()) == after.exit(saved));
    assert(apply_work(m, one) == apply_work(after.exit(saved), one.drop_first()));
}

} // verus!
