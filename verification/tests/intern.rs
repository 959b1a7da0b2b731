use ccompiler::intern::Interner;

#[test]
fn intern_test() {
    let mut interner = Interner::new();
    let id1 = interner.intern("Hello world!");
    let id2 = interner.intern("Wow");
    let id3 = interner.intern("3");
    let _ = interner.intern("4");
    let _ = interner.intern("5");
    let _ = interner.intern("6");
    let _ = interner.intern("7");
    let id3_again = interner.intern("3");
    let id1_again = interner.intern("Hello world!");
    let id2_again = interner.intern("Wow");
    let string = String::from("Hello");
    let _ = interner.intern(&string);

    assert_eq!(id1, id1_again);
    assert_eq!(id2, id2_again);
    assert_eq!(id3, id3_again);
    assert_eq!(interner.len(), 8);
}

#[test]
fn lookup_test() {
    let mut interner = Interner::new();
    let id1 = interner.intern("Hello world!");
    let id1_again = interner.intern("Hello world!");
    let id2 = interner.intern("Cool");

    assert_eq!(id1.get(), "Hello world!");
    assert_eq!(id1_again.get(), "Hello world!");
    assert_eq!(id2.get(), "Cool");

    assert_eq!(id1, id1_again);
}
