//! String interning: every distinct string receives exactly one id.
use vstd::prelude::*;


verus! {

/// `<str as PartialEq>::eq`: std documents that two string slices are equal
/// exactly when they hold the same characters; that is all this claims.
#[verifier::external_body]
fn same_text(a: &str, b: &str) -> (r: bool)
    ensures
        r == (a@ == b@),
{
    a == b
}

/// A handle to an interned string. Two handles from one interner are equal
/// exactly when they were produced for equal strings.
#[derive(Clone, Copy, Debug, Hash)]
pub struct Interned<'a> {
    id: usize,
    text: &'a str,
}

impl<'a> Interned<'a> {
    /// The position of the string in its interner.
    pub closed spec fn index(&self) -> nat {
        self.id as nat
    }

    /// The characters of the interned string.
    pub closed spec fn text(&self) -> Seq<char> {
        self.text@
    }

    /// The interned string.
    pub fn get(&self) -> (r: &'a str)
        ensures
            r@ == self.text(),
    {
        self.text
    }

    /// The id of this handle inside its interner.
    pub fn id(&self) -> (r: usize)
        ensures
            r == self.index(),
    {
        self.id
    }
}

impl<'a> PartialEq for Interned<'a> {
    fn eq(&self, other: &Self) -> (r: bool) {
        let r = self.id == other.id;
        assert(r == (self.index() == other.index()));
        r
    }
}

impl<'a> Eq for Interned<'a> {}

impl<'a> vstd::std_specs::cmp::PartialEqSpecImpl for Interned<'a> {
    open spec fn obeys_eq_spec() -> bool {
        true
    }

    open spec fn eq_spec(&self, other: &Self) -> bool {
        self.index() == other.index()
    }
}

/// Stores each distinct string once, in order of first appearance.
pub struct Interner<'a> {
    unique: Vec<&'a str>,
}

/// No string occurs twice.
pub open spec fn all_distinct(s: Seq<Seq<char>>) -> bool {
    forall|i: int, j: int| 0 <= i < s.len() && 0 <= j < s.len() && i != j ==> s[i] != s[j]
}

impl<'a> Interner<'a> {
    /// The interned strings, in order of first appearance.
    pub closed spec fn strings(&self) -> Seq<Seq<char>> {
        self.unique@.map_values(|s: &'a str| s@)
    }

    /// The interner holds each string at most once.
    pub closed spec fn wf(&self) -> bool {
        all_distinct(self.strings())
    }

    /// A handle is the one this interner gives out for its string.
    pub open spec fn issued(&self, h: Interned<'a>) -> bool {
        &&& h.index() < self.strings().len()
        &&& self.strings()[h.index() as int] == h.text()
    }

    /// Two handles that this interner gave out are the same exactly when
    /// their strings are.
    pub proof fn lemma_issued_unique(&self, a: Interned<'a>, b: Interned<'a>)
        requires
            self.wf(),
            self.issued(a),
            self.issued(b),
        ensures
            (a.index() == b.index()) == (a.text() == b.text()),
    {
    }

    pub fn new() -> (r: Self)
        ensures
            r.wf(),
            r.strings() == Seq::<Seq<char>>::empty(),
    {
        Interner { unique: Vec::new() }
    }

    /// Interns `item`: an equal string interned before gives back its handle,
    /// a new one is appended.
    pub fn intern(&mut self, item: &'a str) -> (r: Interned<'a>)
        requires
            old(self).wf(),
        ensures
            final(self).wf(),
            final(self).issued(r),
            r.text() == item@,
            old(self).strings().contains(item@) ==> final(self).strings() == old(self).strings(),
            !old(self).strings().contains(item@) ==> final(self).strings() == old(self).strings().push(item@),
    {
        let n = self.unique.len();
        let mut i: usize = 0;
        while i < n
            invariant
                n == self.unique@.len(),
                0 <= i <= n,
                self.wf(),
                self.strings() == old(self).strings(),
                forall|k: int| 0 <= k < i ==> self.strings()[k] != item@,
            decreases n - i,
        {
            if same_text(self.unique[i], item) {
                proof {
                    assert(self.strings()[i as int] == item@);
                }
                return Interned { id: i, text: self.unique[i] };
            }
            i += 1;
        }
        proof {
            assert(!self.strings().contains(item@)) by {
                if self.strings().contains(item@) {
                    let k = choose|k: int| 0 <= k < self.strings().len() && self.strings()[k] == item@;
                    assert(self.strings()[k] != item@);
                }
            }
        }
        self.unique.push(item);
        proof {
            assert(self.strings() =~= old(self).strings().push(item@));
        }
        Interned { id: n, text: item }
    }

    /// The number of distinct strings interned so far.
    pub fn len(&self) -> (r: usize)
        ensures
            r == self.strings().len(),
    {
        self.unique.len()
    }

    pub fn is_empty(&self) -> (r: bool)
        ensures
            r == (self.strings().len() == 0),
    {
        self.len() == 0
    }
}

} // verus!
