use ccompiler::arena::{Arena, InternedArena, TypedArena};
use ccompiler::intern::Interner;

#[test]
fn type_alloc_test() {
    let mut arena = TypedArena::new();
    let c = arena.alloc_value('a');
    assert_eq!(*arena.get(c), 'a');
}

#[test]
fn arena_alloc_test() {
    let mut arena = Arena::new();
    let mut nums = Vec::new();
    let mut floats = Vec::new();

    for num in 0..10_000usize {
        let n = arena.allocate(std::mem::size_of::<usize>(), std::mem::align_of::<usize>());
        arena.write(n, &num.to_le_bytes());
        nums.push(n);
        let f = arena.allocate(std::mem::size_of::<f32>(), std::mem::align_of::<f32>());
        arena.write(f, &(num as f32).to_le_bytes());
        floats.push(f);
    }

    for (expected, (num_actual, float_actual)) in nums.into_iter().zip(floats).enumerate() {
        let num_bytes: [u8; 8] = arena.read(num_actual).try_into().unwrap();
        let float_bytes: [u8; 4] = arena.read(float_actual).try_into().unwrap();
        assert_eq!(expected, usize::from_le_bytes(num_bytes));
        assert_eq!(expected as f32, f32::from_le_bytes(float_bytes));
    }
}

#[test]
fn large_align_alloc_test() {
    let mut arena = Arena::new();
    let mut large_bools = Vec::new();

    for i in 0..256usize {
        let a = arena.allocate(4096, 4096);
        let mut block = vec![0u8; 4096];
        block[0] = i.is_multiple_of(2) as u8;
        arena.write(a, &block);
        large_bools.push(a);
    }

    for (i, actual) in large_bools.into_iter().enumerate() {
        assert_eq!(actual.offset % 4096, 0);
        assert_eq!(i.is_multiple_of(2), arena.read(actual)[0] == 1);
    }
}

#[test]
fn arena_intern_test() {
    #[derive(PartialEq, Eq, Hash)]
    struct Person<'a> {
        name: ccompiler::intern::Interned<'a>,
        age: usize,
        friend: Option<ccompiler::arena::Handle>,
    }
    let name = "Bob".to_string();

    let mut str_interner = Interner::new();
    let arena = TypedArena::new();
    let mut interner = InternedArena::new(arena);

    let name_id1 = str_interner.intern(&name);
    let old_bob = Person {
        name: name_id1,
        age: 85,
        friend: None,
    };
    let person1 = interner.intern(old_bob);

    let name_id2 = str_interner.intern(&name);
    let young_bob = Person {
        name: name_id2,
        age: 20,
        friend: Some(person1),
    };

    let name_id3 = str_interner.intern("Bob");
    let young_bob2 = Person {
        name: name_id3,
        age: 20,
        friend: Some(person1),
    };

    let person2 = interner.intern(young_bob);
    let person3 = interner.intern(young_bob2);

    assert_eq!(name_id1, name_id2);
    assert_ne!(person1, person2);
    assert_eq!(person2, person3);
}
