//! The shared state of a keyboard surface: held keys, active scopes, and the
//! registered bindings, each told when it becomes satisfied.

use vstd::prelude::*;
use crate::binding::{alternatives, binding_scopes, hotkey_matches, represents, Binding};
use crate::presses::KeyPresses;
use crate::scopes::{names, wildcard, ActiveScopes};

verus! {

/// A binding that fires: its handle, and the alternative that matched.
#[derive(Clone, Copy, Debug, PartialEq, Eq, Structural)]
pub struct Firing {
    pub handle: usize,
    pub alternative: usize,
}

/// Held keys, active scopes and registered bindings. A binding fires when it
/// goes from not satisfied to satisfied, so a combination held down fires
/// once, and again only after it was released and pressed anew. Within one
/// event a binding fires at most once: a callback that changes scopes while
/// the event is handled cannot make the binding that runs it fire again.
pub struct HotkeysContext<E> {
    presses: KeyPresses<E>,
    scopes: ActiveScopes,
    allow_blur_event: bool,
    bindings: Vec<Option<Binding>>,
    latched: Vec<bool>,
    fired: Vec<bool>,
}

/// No binding marked as fired, for `n` handles.
pub open spec fn no_marks(n: nat) -> Seq<bool> {
    Seq::new(n, |h: int| false)
}

/// The marks after the bindings of `r` fired: a handle is marked if it was, or
/// if it fired now.
pub open spec fn marks_after(marks: Seq<bool>, r: Seq<Firing>) -> Seq<bool> {
    Seq::new(marks.len(), |h: int| marks[h] || exists|k: int| 0 <= k < r.len() && (#[trigger] r[k]).handle == h)
}

impl<E> HotkeysContext<E> {
    /// The held keys.
    pub closed spec fn key_state(&self) -> KeyPresses<E> {
        self.presses
    }

    /// The active scopes.
    pub closed spec fn active(&self) -> Set<Seq<char>> {
        self.scopes@
    }

    /// Whether losing focus keeps the held keys.
    pub closed spec fn blur_allowed(&self) -> bool {
        self.allow_blur_event
    }

    /// The bindings by handle; a removed binding leaves `None`.
    pub closed spec fn bindings(&self) -> Seq<Option<Binding>> {
        self.bindings@
    }

    /// For each handle, whether its binding was satisfied at the last
    /// evaluation.
    pub closed spec fn latched(&self) -> Seq<bool> {
        self.latched@
    }

    /// For each handle, whether its binding already fired in the current
    /// event.
    pub closed spec fn fired_in_event(&self) -> Seq<bool> {
        self.fired@
    }

    /// The binding under handle `h` is live and satisfied now.
    pub open spec fn satisfied_at(&self, h: int) -> bool {
        0 <= h < self.bindings().len() && match self.bindings()[h] {
            Some(b) => b.satisfied_by(&self.key_state(), self.active()),
            None => false,
        }
    }

    /// The state is consistent, and each latch tells whether its binding is
    /// satisfied.
    pub closed spec fn wf(&self) -> bool {
        &&& self.presses.wf()
        &&& self.scopes.wf()
        &&& self.latched@.len() == self.bindings@.len()
        &&& self.fired@.len() == self.bindings@.len()
        &&& forall|h: int| 0 <= h < self.latched@.len() ==> #[trigger] self.latched@[h] == self.satisfied_at(h)
    }

    /// `r` lists, by increasing handle, exactly the bindings that are
    /// satisfied now, were not in the state `prev`, and are not marked in
    /// `marks` as fired earlier in the same event, each with an alternative
    /// that matches.
    pub open spec fn reports(&self, r: Seq<Firing>, prev: &Self, marks: Seq<bool>) -> bool {
        &&& forall|k: int| 0 <= k < r.len() ==> {
            let f = #[trigger] r[k];
            &&& self.satisfied_at(f.handle as int)
            &&& !prev.satisfied_at(f.handle as int)
            &&& !marks[f.handle as int]
            &&& f.alternative < self.bindings()[f.handle as int]->0.alts().len()
            &&& hotkey_matches(
                self.bindings()[f.handle as int]->0.alts()[f.alternative as int],
                self.key_state().pressed(),
            )
        }
        &&& forall|h: int| 0 <= h < self.bindings().len() && #[trigger] self.satisfied_at(h) && !prev.satisfied_at(h) && !marks[h]
            ==> exists|k: int| 0 <= k < r.len() && (#[trigger] r[k]).handle == h
        &&& forall|k1: int, k2: int| 0 <= k1 < k2 < r.len() ==> (#[trigger] r[k1]).handle < (#[trigger] r[k2]).handle
    }

    closed spec fn reports_latched(&self, r: Seq<Firing>, before: Seq<bool>, marks: Seq<bool>) -> bool {
        &&& forall|k: int| 0 <= k < r.len() ==> {
            let f = #[trigger] r[k];
            &&& self.satisfied_at(f.handle as int)
            &&& !before[f.handle as int]
            &&& !marks[f.handle as int]
            &&& f.alternative < self.bindings()[f.handle as int]->0.alts().len()
            &&& hotkey_matches(
                self.bindings()[f.handle as int]->0.alts()[f.alternative as int],
                self.key_state().pressed(),
            )
        }
        &&& forall|h: int| 0 <= h < self.bindings().len() && #[trigger] self.satisfied_at(h) && !before[h] && !marks[h]
            ==> exists|k: int| 0 <= k < r.len() && (#[trigger] r[k]).handle == h
        &&& forall|k1: int, k2: int| 0 <= k1 < k2 < r.len() ==> (#[trigger] r[k1]).handle < (#[trigger] r[k2]).handle
    }

    /// Brings every latch up to date, lists the bindings that became
    /// satisfied and have not fired in this event, and marks them.
    fn evaluate_all(&mut self) -> (r: Vec<Firing>)
        requires
            old(self).presses.wf(),
            old(self).scopes.wf(),
            old(self).latched@.len() == old(self).bindings@.len(),
            old(self).fired@.len() == old(self).bindings@.len(),
        ensures
            final(self).wf(),
            final(self).presses == old(self).presses,
            final(self).scopes == old(self).scopes,
            final(self).allow_blur_event == old(self).allow_blur_event,
            final(self).bindings == old(self).bindings,
            final(self).reports_latched(r@, old(self).latched@, old(self).fired@),
            final(self).fired@ == marks_after(old(self).fired@, r@),
    {
        let ghost before = self.latched@;
        let ghost marks = self.fired@;
        let mut r: Vec<Firing> = Vec::new();
        let mut h: usize = 0;
        while h < self.bindings.len()
            invariant
                self.presses == old(self).presses,
                self.scopes == old(self).scopes,
                self.allow_blur_event == old(self).allow_blur_event,
                self.bindings == old(self).bindings,
                self.presses.wf(),
                self.scopes.wf(),
                before == old(self).latched@,
                marks == old(self).fired@,
                h <= self.bindings.len(),
                self.latched@.len() == self.bindings@.len(),
                self.fired@.len() == self.bindings@.len(),
                forall|j: int| 0 <= j < h ==> #[trigger] self.latched@[j] == self.satisfied_at(j),
                forall|j: int| h <= j < self.latched@.len() ==> #[trigger] self.latched@[j] == before[j],
                forall|j: int| 0 <= j < h ==> #[trigger] self.fired@[j] == (marks[j] || exists|k: int|
                    0 <= k < r@.len() && (#[trigger] r@[k]).handle == j),
                forall|j: int| h <= j < self.fired@.len() ==> #[trigger] self.fired@[j] == marks[j],
                forall|k: int| 0 <= k < r@.len() ==> {
                    let f = #[trigger] r@[k];
                    &&& f.handle < h
                    &&& self.satisfied_at(f.handle as int)
                    &&& !before[f.handle as int]
                    &&& !marks[f.handle as int]
                    &&& f.alternative < self.bindings()[f.handle as int]->0.alts().len()
                    &&& hotkey_matches(
                        self.bindings()[f.handle as int]->0.alts()[f.alternative as int],
                        self.key_state().pressed(),
                    )
                },
                forall|j: int| 0 <= j < h && #[trigger] self.satisfied_at(j) && !before[j] && !marks[j]
                    ==> exists|k: int| 0 <= k < r@.len() && (#[trigger] r@[k]).handle == j,
                forall|k1: int, k2: int| 0 <= k1 < k2 < r@.len() ==> (#[trigger] r@[k1]).handle < (#[trigger] r@[k2]).handle,
            decreases self.bindings.len() - h,
        {
            let found = match &self.bindings[h] {
                Some(b) => b.evaluate(&self.presses, &self.scopes),
                None => None,
            };
            let sat = found.is_some();
            assert(sat == self.satisfied_at(h as int));
            assert(self.latched@[h as int] == before[h as int]);
            assert(self.fired@[h as int] == marks[h as int]);
            let fire = sat && !self.latched[h] && !self.fired[h];
            let ghost prev = *self;
            let ghost rb = r@;
            self.latched.set(h, sat);
            if fire {
                self.fired.set(h, true);
                r.push(Firing { handle: h, alternative: found.unwrap() });
            }
            assert forall|j: int| #[trigger] self.satisfied_at(j) == prev.satisfied_at(j) by {}
            proof {
                assert forall|k: int| 0 <= k < rb.len() implies r@[k] == rb[k] by {}
                assert forall|j: int| 0 <= j < h + 1 implies #[trigger] self.fired@[j] == (marks[j] || exists|k: int|
                    0 <= k < r@.len() && (#[trigger] r@[k]).handle == j) by {
                    if j < h {
                        if exists|k: int| 0 <= k < r@.len() && (#[trigger] r@[k]).handle == j {
                            let k = choose|k: int| 0 <= k < r@.len() && (#[trigger] r@[k]).handle == j;
                            if k < rb.len() {
                                assert(rb[k].handle == j);
                            }
                        }
                        if exists|k: int| 0 <= k < rb.len() && (#[trigger] rb[k]).handle == j {
                            let k = choose|k: int| 0 <= k < rb.len() && (#[trigger] rb[k]).handle == j;
                            assert(r@[k].handle == j);
                        }
                    } else if fire {
                        assert(r@[rb.len() as int].handle == j);
                    } else {
                        if exists|k: int| 0 <= k < r@.len() && (#[trigger] r@[k]).handle == j {
                            let k = choose|k: int| 0 <= k < r@.len() && (#[trigger] r@[k]).handle == j;
                            assert(rb[k].handle < h);
                        }
                    }
                }
                assert forall|j: int| 0 <= j < h + 1 && #[trigger] self.satisfied_at(j) && !before[j] && !marks[j]
                    implies exists|k: int| 0 <= k < r@.len() && (#[trigger] r@[k]).handle == j by {
                    if j < h {
                        let k = choose|k: int| 0 <= k < rb.len() && (#[trigger] rb[k]).handle == j;
                        assert(r@[k] == rb[k]);
                    } else {
                        assert(fire);
                        assert(r@[rb.len() as int].handle == j);
                    }
                }
            }
            h = h + 1;
        }
        assert(self.fired@ =~= marks_after(marks, r@));
        r
    }

    proof fn lemma_reports(&self, r: Seq<Firing>, prev: &Self, marks: Seq<bool>)
        requires
            prev.wf(),
            self.bindings() == prev.bindings(),
            self.reports_latched(r, prev.latched(), marks),
        ensures
            self.reports(r, prev, marks),
    {
        assert forall|h: int| 0 <= h < prev.latched().len() implies #[trigger] prev.latched()[h] == prev.satisfied_at(h) by {}
    }

    /// Forgets which bindings fired: a new event begins.
    fn clear_marks(&mut self)
        ensures
            final(self).presses == old(self).presses,
            final(self).scopes == old(self).scopes,
            final(self).allow_blur_event == old(self).allow_blur_event,
            final(self).bindings == old(self).bindings,
            final(self).latched == old(self).latched,
            final(self).fired@ == no_marks(old(self).fired@.len()),
    {
        let n = self.fired.len();
        let mut marks: Vec<bool> = Vec::new();
        let mut i: usize = 0;
        while i < n
            invariant
                i <= n,
                marks@ == no_marks(i as nat),
            decreases n - i,
        {
            marks.push(false);
            i = i + 1;
            assert(marks@ =~= no_marks(i as nat));
        }
        self.fired = marks;
    }

    /// Re-evaluates every binding after a change of state from `prev`.
    fn dispatch(&mut self, Ghost(prev): Ghost<Self>) -> (r: Vec<Firing>)
        requires
            prev.wf(),
            old(self).presses.wf(),
            old(self).scopes.wf(),
            old(self).bindings == prev.bindings,
            old(self).latched == prev.latched,
            old(self).fired@.len() == prev.bindings@.len(),
        ensures
            final(self).wf(),
            final(self).presses == old(self).presses,
            final(self).scopes == old(self).scopes,
            final(self).allow_blur_event == old(self).allow_blur_event,
            final(self).bindings == old(self).bindings,
            final(self).reports(r@, &prev, old(self).fired@),
            final(self).fired@ == marks_after(old(self).fired@, r@),
    {
        let r = self.evaluate_all();
        proof { self.lemma_reports(r@, &prev, old(self).fired@); }
        r
    }

    /// Starts a new event: no binding counts as fired in it yet. Key events
    /// start one themselves; a caller that changes scopes outside the
    /// handling of an event starts one first.
    pub fn begin_event(&mut self)
        requires
            old(self).wf(),
        ensures
            final(self).wf(),
            final(self).key_state() == old(self).key_state(),
            final(self).active() == old(self).active(),
            final(self).bindings() == old(self).bindings(),
            final(self).blur_allowed() == old(self).blur_allowed(),
            final(self).fired_in_event() == no_marks(old(self).bindings().len()),
    {
        self.clear_marks();
        assert forall|h: int| 0 <= h < self.latched@.len() implies #[trigger] self.latched@[h] == self.satisfied_at(h) by {
            assert(old(self).latched@[h] == old(self).satisfied_at(h));
        }
    }

    /// The held keys.
    pub fn key_presses(&self) -> (r: &KeyPresses<E>)
        requires
            self.wf(),
        ensures
            *r == self.key_state(),
            r.wf(),
    {
        &self.presses
    }

    /// The active scopes.
    pub fn active_scopes(&self) -> (r: &ActiveScopes)
        requires
            self.wf(),
        ensures
            r@ == self.active(),
            r.wf(),
    {
        &self.scopes
    }

    /// The binding under a handle, unless it was removed.
    pub fn binding(&self, handle: usize) -> (r: Option<&Binding>)
        ensures
            match r {
                Some(b) => handle < self.bindings().len() && self.bindings()[handle as int] == Some(*b),
                None => handle >= self.bindings().len() || self.bindings()[handle as int] is None,
            },
    {
        if handle < self.bindings.len() {
            match &self.bindings[handle] {
                Some(b) => Some(b),
                None => None,
            }
        } else {
            None
        }
    }

    /// Registers the alternatives of a combination string under the given
    /// scopes (the wildcard scope when none is given) and returns the handle
    /// of the new binding. A combination that is already held when it is
    /// registered does not fire until it is pressed anew.
    pub fn register(&mut self, key_combination: &str, scopes: Vec<String>) -> (r: usize)
        requires
            old(self).wf(),
        ensures
            final(self).wf(),
            r == old(self).bindings().len(),
            final(self).bindings().drop_last() == old(self).bindings(),
            final(self).bindings().len() == r + 1,
            final(self).bindings()[r as int] matches Some(b) && represents(b.alts(), alternatives(key_combination@))
                && b.scope_names() == binding_scopes(names(scopes@)),
            final(self).fired_in_event() == old(self).fired_in_event().push(false),
            final(self).key_state() == old(self).key_state(),
            final(self).active() == old(self).active(),
            final(self).blur_allowed() == old(self).blur_allowed(),
    {
        let b = Binding::new(key_combination, scopes);
        let sat = b.evaluate(&self.presses, &self.scopes).is_some();
        let r = self.bindings.len();
        let ghost prev = *self;
        self.bindings.push(Some(b));
        self.latched.push(sat);
        self.fired.push(false);
        proof {
            assert(self.bindings@.drop_last() =~= prev.bindings@);
            assert forall|h: int| 0 <= h < self.latched@.len() implies #[trigger] self.latched@[h] == self.satisfied_at(h) by {
                if h < r {
                    assert(self.bindings@[h] == prev.bindings@[h]);
                    assert(prev.latched@[h] == prev.satisfied_at(h));
                }
            }
        }
        r
    }

    /// Removes the binding under a handle; it fires no more. Nothing changes
    /// for a handle that names no binding.
    pub fn unregister(&mut self, handle: usize)
        requires
            old(self).wf(),
        ensures
            final(self).wf(),
            final(self).bindings() == if handle < old(self).bindings().len() {
                old(self).bindings().update(handle as int, None)
            } else {
                old(self).bindings()
            },
            final(self).fired_in_event() == if handle < old(self).bindings().len() {
                old(self).fired_in_event().update(handle as int, false)
            } else {
                old(self).fired_in_event()
            },
            final(self).key_state() == old(self).key_state(),
            final(self).active() == old(self).active(),
            final(self).blur_allowed() == old(self).blur_allowed(),
    {
        if handle < self.bindings.len() {
            let ghost prev = *self;
            self.bindings.set(handle, None);
            self.latched.set(handle, false);
            self.fired.set(handle, false);
            proof {
                assert forall|h: int| 0 <= h < self.latched@.len() implies #[trigger] self.latched@[h] == self.satisfied_at(h) by {
                    if h != handle {
                        assert(prev.latched@[h] == prev.satisfied_at(h));
                    }
                }
            }
        }
    }

    /// A key went down, which starts a new event. The key is held with this
    /// event and is the last key; the bindings that became satisfied are
    /// returned. Pressing again the key
    /// that is already held and last, as a held key repeats, fires nothing.
    pub fn key_down(&mut self, key: String, event: E) -> (r: Vec<Firing>)
        requires
            old(self).wf(),
        ensures
            final(self).wf(),
            final(self).key_state().key_map() == old(self).key_state().key_map().insert(key@, event),
            final(self).key_state().last() == Some(key@),
            final(self).active() == old(self).active(),
            final(self).bindings() == old(self).bindings(),
            final(self).blur_allowed() == old(self).blur_allowed(),
            final(self).reports(r@, old(self), no_marks(old(self).bindings().len())),
            final(self).fired_in_event() == marks_after(no_marks(old(self).bindings().len()), r@),
            old(self).key_state().pressed().contains(key@) && old(self).key_state().last() == Some(key@)
                ==> r@.len() == 0,
    {
        let ghost prev = *self;
        let ghost k = key@;
        self.presses.key_down(key, event);
        self.clear_marks();
        let r = self.dispatch(Ghost(prev));
        proof {
            if prev.key_state().pressed().contains(k) && prev.key_state().last() == Some(k) {
                assert(self.key_state().pressed() =~= prev.key_state().pressed());
                if r@.len() > 0 {
                    let f = r@[0];
                    assert(self.satisfied_at(f.handle as int) == prev.satisfied_at(f.handle as int));
                }
            }
        }
        r
    }

    /// A key went up, which starts a new event. It is no longer held; if it
    /// was the last key there is no last key. The bindings that became
    /// satisfied are returned.
    pub fn key_up(&mut self, key: &String) -> (r: Vec<Firing>)
        requires
            old(self).wf(),
        ensures
            final(self).wf(),
            final(self).key_state().key_map() == old(self).key_state().key_map().remove(key@),
            final(self).key_state().last() == (if old(self).key_state().last() == Some(key@) {
                None
            } else {
                old(self).key_state().last()
            }),
            final(self).active() == old(self).active(),
            final(self).bindings() == old(self).bindings(),
            final(self).blur_allowed() == old(self).blur_allowed(),
            final(self).reports(r@, old(self), no_marks(old(self).bindings().len())),
            final(self).fired_in_event() == marks_after(no_marks(old(self).bindings().len()), r@),
    {
        let ghost prev = *self;
        self.presses.key_up(key);
        self.clear_marks();
        self.dispatch(Ghost(prev))
    }

    /// The surface lost focus, which starts a new event. Unless losing focus is allowed to keep them,
    /// the held keys and the last key are forgotten, since their key-up
    /// events may never come. Nothing fires.
    pub fn focus_lost(&mut self) -> (r: Vec<Firing>)
        requires
            old(self).wf(),
        ensures
            final(self).wf(),
            if old(self).blur_allowed() {
                final(self).key_state() == old(self).key_state()
            } else {
                &&& final(self).key_state().key_map() == Map::<Seq<char>, E>::empty()
                &&& final(self).key_state().last() == None::<Seq<char>>
            },
            final(self).active() == old(self).active(),
            final(self).bindings() == old(self).bindings(),
            final(self).blur_allowed() == old(self).blur_allowed(),
            final(self).reports(r@, old(self), no_marks(old(self).bindings().len())),
            final(self).fired_in_event() == marks_after(no_marks(old(self).bindings().len()), r@),
            r@.len() == 0,
            !old(self).blur_allowed() ==> forall|h: int| 0 <= h < final(self).bindings().len() ==> !#[trigger] final(self).satisfied_at(h),
    {
        let ghost prev = *self;
        if !self.allow_blur_event {
            self.presses.clear();
        }
        self.clear_marks();
        let r = self.dispatch(Ghost(prev));
        proof {
            if r@.len() > 0 {
                let f = r@[0];
                assert(self.satisfied_at(f.handle as int));
                if prev.allow_blur_event {
                    assert(self.satisfied_at(f.handle as int) == prev.satisfied_at(f.handle as int));
                }
            }
        }
        r
    }

    /// Whether the scope is active.
    pub fn is_scope_active(&self, scope: &String) -> (r: bool)
        ensures
            r == self.active().contains(scope@),
    {
        self.scopes.contains(scope)
    }

    /// Makes the scope active, within the current event, and returns the
    /// bindings that became satisfied and have not fired in this event.
    pub fn enable_scope(&mut self, scope: String) -> (r: Vec<Firing>)
        requires
            old(self).wf(),
        ensures
            final(self).wf(),
            final(self).active() == old(self).active().insert(scope@),
            final(self).key_state() == old(self).key_state(),
            final(self).bindings() == old(self).bindings(),
            final(self).blur_allowed() == old(self).blur_allowed(),
            final(self).reports(r@, old(self), old(self).fired_in_event()),
            final(self).fired_in_event() == marks_after(old(self).fired_in_event(), r@),
    {
        let ghost prev = *self;
        self.scopes.enable(scope);
        self.dispatch(Ghost(prev))
    }

    /// Makes the scope inactive. No binding becomes satisfied by that, so
    /// nothing fires.
    pub fn disable_scope(&mut self, scope: &String) -> (r: Vec<Firing>)
        requires
            old(self).wf(),
        ensures
            final(self).wf(),
            final(self).active() == old(self).active().remove(scope@),
            final(self).key_state() == old(self).key_state(),
            final(self).bindings() == old(self).bindings(),
            final(self).blur_allowed() == old(self).blur_allowed(),
            final(self).reports(r@, old(self), old(self).fired_in_event()),
            final(self).fired_in_event() == marks_after(old(self).fired_in_event(), r@),
            r@.len() == 0,
    {
        let ghost prev = *self;
        self.scopes.disable(scope);
        let r = self.dispatch(Ghost(prev));
        proof {
            if r@.len() > 0 {
                let f = r@[0];
                let b = self.bindings()[f.handle as int]->0;
                assert(self.satisfied_at(f.handle as int));
                let i = choose|i: int| 0 <= i < b.scope_names().len() && self.active().contains(#[trigger] b.scope_names()[i]);
                assert(prev.active().contains(b.scope_names()[i]));
                assert(prev.satisfied_at(f.handle as int));
            }
        }
        r
    }

    /// Makes an active scope inactive and an inactive one active, within the
    /// current event, and returns the bindings that became satisfied and have
    /// not fired in this event.
    pub fn toggle_scope(&mut self, scope: String) -> (r: Vec<Firing>)
        requires
            old(self).wf(),
        ensures
            final(self).wf(),
            final(self).active() == if old(self).active().contains(scope@) {
                old(self).active().remove(scope@)
            } else {
                old(self).active().insert(scope@)
            },
            final(self).key_state() == old(self).key_state(),
            final(self).bindings() == old(self).bindings(),
            final(self).blur_allowed() == old(self).blur_allowed(),
            final(self).reports(r@, old(self), old(self).fired_in_event()),
            final(self).fired_in_event() == marks_after(old(self).fired_in_event(), r@),
    {
        let ghost prev = *self;
        self.scopes.toggle(scope);
        self.dispatch(Ghost(prev))
    }
}

/// A context with no key held, the given scopes active and no binding;
/// `allow_blur_event` keeps the held keys when the surface loses focus.
pub fn provide_hotkeys_context<E>(allow_blur_event: bool, initially_active_scopes: Vec<String>) -> (r: HotkeysContext<E>)
    ensures
        r.wf(),
        r.key_state().pressed() == Set::<Seq<char>>::empty(),
        r.key_state().last() == None::<Seq<char>>,
        r.active() == names(initially_active_scopes@).to_set(),
        r.blur_allowed() == allow_blur_event,
        r.bindings() == Seq::<Option<Binding>>::empty(),
{
    let presses = KeyPresses::new();
    let r = HotkeysContext {
        presses,
        scopes: ActiveScopes::from_names(initially_active_scopes),
        allow_blur_event,
        bindings: Vec::new(),
        latched: Vec::new(),
        fired: Vec::new(),
    };
    assert(r.key_state().pressed() =~= Set::<Seq<char>>::empty());
    r
}

/// The wildcard scope followed by the given ones: the scopes a provider
/// starts with unless it is told otherwise.
pub fn scopes(extra: Vec<String>) -> (r: Vec<String>)
    ensures
        names(r@) == seq![wildcard()] + names(extra@),
{
    let mut r: Vec<String> = Vec::new();
    r.push("*".to_string());
    assert(names(r@) =~= seq![wildcard()] + names(extra@.subrange(0, 0)));
    let mut i: usize = 0;
    while i < extra.len()
        invariant
            i <= extra.len(),
            names(r@) == seq![wildcard()] + names(extra@.subrange(0, i as int)),
        decreases extra.len() - i,
    {
        let ghost before = r@;
        let x = extra[i].clone();
        r.push(x);
        assert(names(r@) =~= names(before).push(x@));
        assert(names(extra@.subrange(0, i as int + 1)) =~= names(extra@.subrange(0, i as int)).push(x@));
        assert(names(r@) =~= seq![wildcard()] + names(extra@.subrange(0, i as int + 1)));
        i = i + 1;
    }
    assert(extra@.subrange(0, i as int) =~= extra@);
    r
}

} // verus!
