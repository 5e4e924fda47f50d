//! The set of active scope names.

use vstd::prelude::*;

verus! {

/// The identifiers of a list of names.
pub open spec fn names(v: Seq<String>) -> Seq<Seq<char>> {
    v.map_values(|s: String| s@)
}

/// The scope that stands for "everywhere".
pub open spec fn wildcard() -> Seq<char> {
    "*"@
}

/// The scopes in which bindings may fire. Names are opaque: no prefix or
/// hierarchy is read into them.
pub struct ActiveScopes {
    scopes: Vec<String>,
}

impl ActiveScopes {
    /// The active scope names.
    pub closed spec fn view(&self) -> Set<Seq<char>> {
        names(self.scopes@).to_set()
    }

    /// Each name is kept once.
    pub closed spec fn wf(&self) -> bool {
        names(self.scopes@).no_duplicates()
    }

    fn find(&self, scope: &String) -> (r: Option<usize>)
        ensures
            match r {
                Some(i) => i < self.scopes@.len() && self.scopes@[i as int]@ == scope@,
                None => !self@.contains(scope@),
            },
    {
        let mut i: usize = 0;
        while i < self.scopes.len()
            invariant
                i <= self.scopes.len(),
                forall|j: int| 0 <= j < i ==> self.scopes@[j]@ != scope@,
            decreases self.scopes.len() - i,
        {
            if self.scopes[i].eq(scope) {
                return Some(i);
            }
            i = i + 1;
        }
        proof {
            if names(self.scopes@).contains(scope@) {
                let j = choose|j: int| 0 <= j < self.scopes@.len() && names(self.scopes@)[j] == scope@;
                assert(self.scopes@[j]@ == scope@);
            }
        }
        None
    }

    /// No active scope.
    pub fn empty() -> (r: Self)
        ensures
            r.wf(),
            r@ == Set::<Seq<char>>::empty(),
    {
        let r = ActiveScopes { scopes: Vec::new() };
        assert(names(r.scopes@).to_set() =~= Set::<Seq<char>>::empty());
        r
    }

    /// Only the wildcard scope is active.
    pub fn global() -> (r: Self)
        ensures
            r.wf(),
            r@ == set![wildcard()],
    {
        let mut r = ActiveScopes::empty();
        r.enable("*".to_string());
        assert(r@ =~= set![wildcard()]);
        r
    }

    /// Exactly the given scopes are active.
    pub fn from_names(initial: Vec<String>) -> (r: Self)
        ensures
            r.wf(),
            r@ == names(initial@).to_set(),
    {
        let mut r = ActiveScopes::empty();
        let mut i: usize = 0;
        while i < initial.len()
            invariant
                i <= initial.len(),
                r.wf(),
                r@ == names(initial@.subrange(0, i as int)).to_set(),
            decreases initial.len() - i,
        {
            r.enable(initial[i].clone());
            proof {
                assert(names(initial@.subrange(0, i as int + 1)) =~= names(initial@.subrange(0, i as int)).push(initial@[i as int]@));
                names(initial@.subrange(0, i as int)).lemma_push_to_set_commute(initial@[i as int]@);
                assert(r@ =~= names(initial@.subrange(0, i as int + 1)).to_set());
            }
            i = i + 1;
        }
        assert(initial@.subrange(0, i as int) =~= initial@);
        r
    }

    /// Whether the scope is active.
    pub fn contains(&self, scope: &String) -> (r: bool)
        ensures
            r == self@.contains(scope@),
    {
        match self.find(scope) {
            Some(i) => {
                assert(names(self.scopes@)[i as int] == scope@);
                true
            },
            None => false,
        }
    }

    /// Makes the scope active; nothing changes if it already is.
    pub fn enable(&mut self, scope: String)
        requires
            old(self).wf(),
        ensures
            final(self).wf(),
            final(self)@ == old(self)@.insert(scope@),
    {
        match self.find(&scope) {
            Some(i) => {
                assert(names(self.scopes@)[i as int] == scope@);
                assert(self@ =~= old(self)@.insert(scope@));
            },
            None => {
                let ghost before = self.scopes@;
                self.scopes.push(scope);
                proof {
                    assert(names(self.scopes@) =~= names(before).push(scope@));
                    names(before).lemma_push_to_set_commute(scope@);
                    assert(self@ =~= old(self)@.insert(scope@));
                }
            },
        }
    }

    /// Makes the scope inactive; nothing changes if it already is.
    pub fn disable(&mut self, scope: &String)
        requires
            old(self).wf(),
        ensures
            final(self).wf(),
            final(self)@ == old(self)@.remove(scope@),
    {
        match self.find(scope) {
            Some(i) => {
                let ghost before = names(self.scopes@);
                self.scopes.remove(i);
                proof {
                    assert(names(self.scopes@) =~= before.remove(i as int));
                    assert forall|x: Seq<char>| self@.contains(x) <==> old(self)@.remove(scope@).contains(x) by {
                        if before.remove(i as int).contains(x) {
                            let j = choose|j: int| 0 <= j < before.len() - 1 && before.remove(i as int)[j] == x;
                            if j < i {
                                assert(before[j] == x);
                                assert(x != scope@ || before[j] == before[i as int]);
                            } else {
                                assert(before[j + 1] == x);
                                assert(x != scope@ || before[j + 1] == before[i as int]);
                            }
                        }
                        if old(self)@.contains(x) && x != scope@ {
                            let j = choose|j: int| 0 <= j < before.len() && before[j] == x;
                            if j < i {
                                assert(before.remove(i as int)[j] == x);
                            } else {
                                assert(before.remove(i as int)[j - 1] == x);
                            }
                        }
                    }
                    assert(self@ =~= old(self)@.remove(scope@));
                }
            },
            None => {
                assert(self@ =~= old(self)@.remove(scope@));
            },
        }
    }

    /// Makes an active scope inactive and an inactive one active.
    pub fn toggle(&mut self, scope: String)
        requires
            old(self).wf(),
        ensures
            final(self).wf(),
            final(self)@ == if old(self)@.contains(scope@) {
                old(self)@.remove(scope@)
            } else {
                old(self)@.insert(scope@)
            },
    {
        if self.contains(&scope) {
            self.disable(&scope);
        } else {
            self.enable(scope);
        }
    }

    /// The active scope names, each once.
    pub fn to_vec(&self) -> (r: Vec<String>)
        requires
            self.wf(),
        ensures
            names(r@).to_set() == self@,
            names(r@).no_duplicates(),
    {
        let r = self.scopes.clone();
        assert(r@ =~= self.scopes@);
        r
    }
}

} // verus!
