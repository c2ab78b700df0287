use crate::grammar::Symbol;
use vstd::prelude::*;

verus! {

/// Interns strings as small positive integers, with reverse lookup.
pub struct SymbolTable {
    storage: Vec<String>,
}

impl SymbolTable {
    /// The interned strings, the one of symbol `k` at index `k`; index 0 holds
    /// an empty placeholder, so that no symbol is 0.
    pub closed spec fn strings(self) -> Seq<Seq<char>> {
        Seq::new(self.storage@.len(), |i: int| self.storage@[i]@)
    }

    /// The placeholder is in place and no string is interned twice.
    pub closed spec fn wf(self) -> bool {
        &&& self.storage@.len() >= 1
        &&& self.storage@[0]@ == Seq::<char>::empty()
        &&& forall|i: int, j: int|
            1 <= i < j < self.storage@.len() ==> #[trigger] self.storage@[i]@ != #[trigger] self.storage@[j]@
    }

    /// A table with no string interned.
    pub fn new() -> (t: Self)
        ensures
            t.wf(),
            t.strings() == seq![Seq::<char>::empty()],
    {
        let mut storage: Vec<String> = Vec::new();
        storage.push(String::new());
        let t = SymbolTable { storage };
        proof {
            assert(t.strings() =~= seq![Seq::<char>::empty()]);
        }
        t
    }

    /// The symbol of `s`, interning it first if it is new.
    pub fn get(&mut self, s: &str) -> (sym: Symbol)
        requires
            old(self).wf(),
            old(self).strings().len() < usize::MAX,
        ensures
            final(self).wf(),
            1 <= sym < final(self).strings().len(),
            final(self).strings()[sym as int] == s@,
            (exists|k: int| 1 <= k < old(self).strings().len() && old(self).strings()[k] == s@)
                ==> final(self).strings() == old(self).strings(),
            !(exists|k: int| 1 <= k < old(self).strings().len() && old(self).strings()[k] == s@)
                ==> final(self).strings() == old(self).strings().push(s@) && sym == old(
                self,
            ).strings().len(),
    {
        let owned = s.to_owned();
        let mut k: usize = 1;
        while k < self.storage.len()
            invariant
                1 <= k <= self.storage@.len(),
                self.wf(),
                self.storage@ == old(self).storage@,
                owned@ == s@,
                forall|j: int| 1 <= j < k ==> self.storage@[j]@ != s@,
            decreases self.storage.len() - k,
        {
            if self.storage[k] == owned {
                proof {
                    assert(self.strings()[k as int] == s@);
                }
                return k;
            }
            k = k + 1;
        }
        proof {
            assert forall|j: int| 1 <= j < old(self).strings().len() implies old(self).strings()[j] != s@ by {
                assert(old(self).strings()[j] == old(self).storage@[j]@);
            }
        }
        self.intern(owned)
    }

    fn intern(&mut self, owned: String) -> (sym: Symbol)
        requires
            old(self).wf(),
            old(self).strings().len() < usize::MAX,
            forall|j: int| 1 <= j < old(self).storage@.len() ==> old(self).storage@[j]@ != owned@,
        ensures
            final(self).wf(),
            sym == old(self).strings().len(),
            final(self).strings() == old(self).strings().push(owned@),
    {
        let sym = self.storage.len();
        let ghost before = self.strings();
        self.storage.push(owned);
        proof {
            assert(self.strings() =~= before.push(owned@));
        }
        sym
    }

    /// The string of symbol `sym`.
    pub fn val(&self, sym: Symbol) -> (r: String)
        requires
            sym < self.strings().len(),
        ensures
            r@ == self.strings()[sym as int],
    {
        self.storage[sym].as_str().to_owned()
    }
}

} // verus!
