use ccompiler::arena::{Arena, InternedArena, TypedArena};
use ccompiler::compiler::ty::ScopeStack;
use ccompiler::intern::Interner;

#[test]
fn first_block_starts_a_page_sized_chunk() {
    let mut arena = Arena::new();
    let a = arena.allocate(3, 1);
    assert_eq!((a.chunk, a.offset, a.len), (0, 0, 3));
    let b = arena.allocate(8, 8);
    assert_eq!((b.chunk, b.offset, b.len), (0, 8, 8));
    let c = arena.allocate(5000, 1);
    assert_eq!((c.chunk, c.offset, c.len), (1, 0, 5000));
}

#[test]
fn consecutive_blocks_do_not_overlap() {
    let mut arena = Arena::new();
    let a = arena.allocate(10, 4);
    let b = arena.allocate(10, 4);
    assert!(a.chunk != b.chunk || a.offset + a.len <= b.offset || b.offset + b.len <= a.offset);
}

#[test]
fn a_read_gives_back_the_last_write() {
    let mut arena = Arena::new();
    let a = arena.allocate(4, 4);
    let b = arena.allocate(4, 4);
    arena.write(a, &[1, 2, 3, 4]);
    arena.write(b, &[9, 9, 9, 9]);
    arena.write(a, &[5, 6, 7, 8]);
    assert_eq!(arena.read(a), vec![5, 6, 7, 8]);
    assert_eq!(arena.read(b), vec![9, 9, 9, 9]);
}

#[test]
fn typed_arena_hands_out_handles_in_order() {
    let mut arena = TypedArena::new();
    let a = arena.alloc_value(10u64);
    let b = arena.alloc_value(20u64);
    assert_eq!((a.index, b.index), (0, 1));
    assert_eq!((*arena.get(a), *arena.get(b)), (10, 20));
    assert_eq!(arena.len(), 2);
}

#[test]
fn interning_an_equal_value_gives_the_same_handle() {
    let mut interner = InternedArena::new(TypedArena::new());
    let a = interner.intern(7u32);
    let b = interner.intern(8u32);
    let c = interner.intern(7u32);
    assert_eq!(a.index, c.index);
    assert_ne!(a.index, b.index);
    assert_eq!(interner.len(), 2);
}

#[test]
fn interned_strings_share_an_id_exactly_when_equal() {
    let mut ids = Interner::new();
    let x1 = ids.intern("x");
    let y = ids.intern("y");
    let x2 = ids.intern("x");
    assert_eq!(x1.id(), x2.id());
    assert_ne!(x1.id(), y.id());
    assert_eq!(x2.get(), "x");
    assert_eq!(ids.len(), 2);
}

#[test]
fn a_lookup_finds_the_innermost_binding() {
    let mut scopes: ScopeStack<u32, &str> = ScopeStack::new();
    scopes.push(1, "outer");
    let saved = scopes.enter_scope();
    assert!(!scopes.in_scope(&1));
    assert_eq!(scopes.get(&1), Some(&"outer"));
    scopes.push(1, "inner");
    assert_eq!(scopes.get(&1), Some(&"inner"));
    assert_eq!(scopes.get_in_scope(&1), Some(&"inner"));
    scopes.exit_scope(saved);
    assert_eq!(scopes.get(&1), Some(&"outer"));
    assert!(scopes.in_scope(&1));
    assert_eq!(scopes.get(&2), None);
}

#[test]
fn nested_scopes_leave_the_stack_as_it_was() {
    let mut scopes: ScopeStack<u32, &str> = ScopeStack::new();
    scopes.push(1, "outer");
    let bottom = scopes.model_bottom();
    let saved = scopes.enter_scope();
    scopes.push(2, "a");
    let inner_saved = scopes.enter_scope();
    scopes.push(1, "shadow");
    scopes.push(3, "b");
    assert_eq!(scopes.get(&1), Some(&"shadow"));
    scopes.exit_scope(inner_saved);
    assert_eq!(scopes.get(&1), Some(&"outer"));
    assert_eq!(scopes.get(&3), None);
    scopes.push(4, "c");
    scopes.exit_scope(saved);
    assert_eq!(scopes.model_bottom(), bottom);
    assert_eq!(scopes.get(&1), Some(&"outer"));
    assert_eq!(scopes.get(&2), None);
    assert_eq!(scopes.get(&4), None);
    assert!(scopes.in_scope(&1));
}
