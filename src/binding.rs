//! Matching held keys against hotkeys, and bindings: the alternatives of one
//! key-combination string together with the scopes they belong to.

use vstd::prelude::*;
use crate::hotkey::{parse_hotkey, same_hotkey, Hotkey, HotkeyModel};
use crate::presses::KeyPresses;
use crate::scopes::{names, wildcard, ActiveScopes};
use crate::text::{chars_of, split, split_chars, string_of};

verus! {

/// Some Control key is held.
pub open spec fn ctrl_held(p: Set<Seq<char>>) -> bool {
    p.contains("controlleft"@) || p.contains("controlright"@) || p.contains("control"@)
}

/// Some Shift key is held.
pub open spec fn shift_held(p: Set<Seq<char>>) -> bool {
    p.contains("shiftleft"@) || p.contains("shiftright"@) || p.contains("shift"@)
}

/// Some Meta key is held, under any of its names.
pub open spec fn meta_held(p: Set<Seq<char>>) -> bool {
    p.contains("metaleft"@) || p.contains("metaright"@) || p.contains("meta"@) || p.contains(
        "command"@,
    ) || p.contains("cmd"@) || p.contains("super"@) || p.contains("win"@)
}

/// Some Alt key is held.
pub open spec fn alt_held(p: Set<Seq<char>>) -> bool {
    p.contains("altleft"@) || p.contains("altright"@) || p.contains("alt"@)
}

/// A hotkey matches the held keys when each modifier it requires is held
/// under one of its names and each of its keys is held.
pub open spec fn hotkey_matches(h: HotkeyModel, p: Set<Seq<char>>) -> bool {
    &&& (h.0.ctrl ==> ctrl_held(p))
    &&& (h.0.shift ==> shift_held(p))
    &&& (h.0.meta ==> meta_held(p))
    &&& (h.0.alt ==> alt_held(p))
    &&& forall|i: int| 0 <= i < h.1.len() ==> p.contains(#[trigger] h.1[i])
}

/// The key pressed last is one of the keys of some alternative.
pub open spec fn last_key_gate(alts: Seq<HotkeyModel>, last: Option<Seq<char>>) -> bool {
    match last {
        Some(k) => exists|i: int| 0 <= i < alts.len() && (#[trigger] alts[i]).1.contains(k),
        None => false,
    }
}

/// Some scope of a binding is active.
pub open spec fn in_scope(scopes: Seq<Seq<char>>, active: Set<Seq<char>>) -> bool {
    exists|i: int| 0 <= i < scopes.len() && active.contains(#[trigger] scopes[i])
}

/// Some alternative matches the held keys.
pub open spec fn some_match(alts: Seq<HotkeyModel>, p: Set<Seq<char>>) -> bool {
    exists|i: int| 0 <= i < alts.len() && hotkey_matches(#[trigger] alts[i], p)
}

/// A binding is satisfied when one of its scopes is active, the key pressed
/// last belongs to it, and one of its alternatives matches.
pub open spec fn satisfied(
    alts: Seq<HotkeyModel>,
    scopes: Seq<Seq<char>>,
    pressed: Set<Seq<char>>,
    last: Option<Seq<char>>,
    active: Set<Seq<char>>,
) -> bool {
    in_scope(scopes, active) && last_key_gate(alts, last) && some_match(alts, pressed)
}

/// The hotkeys of the comma-separated alternatives of a combination string.
pub open spec fn alternatives(s: Seq<char>) -> Seq<HotkeyModel> {
    split(s, ',').map_values(|p: Seq<char>| parse_hotkey(p))
}

/// The models of a list of hotkeys.
pub open spec fn models(hs: Seq<Hotkey>) -> Seq<HotkeyModel> {
    hs.map_values(|h: Hotkey| h@)
}

/// Whether the hotkey matches the held keys. Only the plain keys of the hotkey
/// are looked up by identifier; a modifier is held under any of its names.
pub fn is_hotkey_match<E>(hotkey: &Hotkey, presses: &KeyPresses<E>) -> (r: bool)
    requires
        presses.wf(),
    ensures
        r == hotkey_matches(hotkey@, presses.pressed()),
{
    let p = Ghost(presses.pressed());
    if hotkey.modifiers.ctrl {
        if !(presses.is_pressed(&"controlleft".to_string()) || presses.is_pressed(
            &"controlright".to_string(),
        ) || presses.is_pressed(&"control".to_string())) {
            return false;
        }
    }
    if hotkey.modifiers.shift {
        if !(presses.is_pressed(&"shiftleft".to_string()) || presses.is_pressed(
            &"shiftright".to_string(),
        ) || presses.is_pressed(&"shift".to_string())) {
            return false;
        }
    }
    if hotkey.modifiers.meta {
        if !(presses.is_pressed(&"metaleft".to_string()) || presses.is_pressed(
            &"metaright".to_string(),
        ) || presses.is_pressed(&"meta".to_string()) || presses.is_pressed(&"command".to_string())
            || presses.is_pressed(&"cmd".to_string()) || presses.is_pressed(&"super".to_string())
            || presses.is_pressed(&"win".to_string())) {
            return false;
        }
    }
    if hotkey.modifiers.alt {
        if !(presses.is_pressed(&"altleft".to_string()) || presses.is_pressed(
            &"altright".to_string(),
        ) || presses.is_pressed(&"alt".to_string())) {
            return false;
        }
    }
    let mut i: usize = 0;
    while i < hotkey.keys.len()
        invariant
            presses.wf(),
            p@ == presses.pressed(),
            i <= hotkey.keys.len(),
            forall|j: int| 0 <= j < i ==> p@.contains(#[trigger] hotkey@.1[j]),
        decreases hotkey.keys.len() - i,
    {
        if !presses.is_pressed(&hotkey.keys[i]) {
            assert(hotkey@.1[i as int] == hotkey.keys@[i as int]@);
            return false;
        }
        i = i + 1;
    }
    true
}

/// Whether the key pressed last belongs to one of the hotkeys.
pub fn is_last_key_match<E>(parsed_keys: &Vec<Hotkey>, presses: &KeyPresses<E>) -> (r: bool)
    ensures
        r == last_key_gate(models(parsed_keys@), presses.last()),
{
    match presses.last_key() {
        None => false,
        Some(k) => {
            let mut i: usize = 0;
            while i < parsed_keys.len()
                invariant
                    i <= parsed_keys.len(),
                    presses.last() == Some(k@),
                    forall|j: int| 0 <= j < i ==> !(#[trigger] models(parsed_keys@)[j]).1.contains(k@),
                decreases parsed_keys.len() - i,
            {
                if parsed_keys[i].includes_key(&k) {
                    assert(models(parsed_keys@)[i as int] == parsed_keys@[i as int]@);
                    return true;
                }
                i = i + 1;
            }
            false
        },
    }
}

/// Whether one of the scopes is active.
pub fn within_scope(scopes: &Vec<String>, active: &ActiveScopes) -> (r: bool)
    ensures
        r == in_scope(names(scopes@), active@),
{
    let mut i: usize = 0;
    while i < scopes.len()
        invariant
            i <= scopes.len(),
            forall|j: int| 0 <= j < i ==> !active@.contains(#[trigger] names(scopes@)[j]),
        decreases scopes.len() - i,
    {
        if active.contains(&scopes[i]) {
            assert(names(scopes@)[i as int] == scopes@[i as int]@);
            return true;
        }
        i = i + 1;
    }
    false
}

/// The index of the first hotkey that matches the held keys.
pub fn find_match<E>(parsed_keys: &Vec<Hotkey>, presses: &KeyPresses<E>) -> (r: Option<usize>)
    requires
        presses.wf(),
    ensures
        match r {
            Some(i) => i < parsed_keys@.len() && hotkey_matches(parsed_keys@[i as int]@, presses.pressed())
                && forall|j: int| 0 <= j < i ==> !hotkey_matches(#[trigger] models(parsed_keys@)[j], presses.pressed()),
            None => !some_match(models(parsed_keys@), presses.pressed()),
        },
{
    let mut i: usize = 0;
    while i < parsed_keys.len()
        invariant
            presses.wf(),
            i <= parsed_keys.len(),
            forall|j: int| 0 <= j < i ==> !hotkey_matches(#[trigger] models(parsed_keys@)[j], presses.pressed()),
        decreases parsed_keys.len() - i,
    {
        if is_hotkey_match(&parsed_keys[i], presses) {
            return Some(i);
        }
        assert(models(parsed_keys@)[i as int] == parsed_keys@[i as int]@);
        i = i + 1;
    }
    None
}

/// Some hotkey of the list is the same as `h`.
pub open spec fn covered(hs: Seq<HotkeyModel>, h: HotkeyModel) -> bool {
    exists|i: int| 0 <= i < hs.len() && same_hotkey(#[trigger] hs[i], h)
}

/// The list holds the alternatives with duplicates collapsed: each entry is
/// one of the alternatives, each alternative is the same as some entry, and no
/// two entries are the same.
pub open spec fn represents(hs: Seq<HotkeyModel>, alts: Seq<HotkeyModel>) -> bool {
    &&& forall|i: int| 0 <= i < hs.len() ==> alts.contains(#[trigger] hs[i])
    &&& forall|j: int| 0 <= j < alts.len() ==> covered(hs, #[trigger] alts[j])
    &&& forall|i: int, k: int| 0 <= i < k < hs.len() ==> !same_hotkey(#[trigger] hs[i], #[trigger] hs[k])
}

/// Parses a combination string into its comma-separated alternatives, each a
/// hotkey; alternatives that denote the same hotkey are kept once.
pub fn parse_alternatives(key_combination: &str) -> (r: Vec<Hotkey>)
    ensures
        represents(models(r@), alternatives(key_combination@)),
{
    let cs = chars_of(key_combination);
    let pieces = split_chars(&cs, ',');
    let ghost alts = alternatives(key_combination@);
    proof {
        assert(pieces@.map_values(|p: Vec<char>| p@) == split(key_combination@, ','));
        assert(alts.len() == pieces@.len());
    }
    let mut r: Vec<Hotkey> = Vec::new();
    let mut n: usize = 0;
    while n < pieces.len()
        invariant
            n <= pieces.len(),
            alts == alternatives(key_combination@),
            alts.len() == pieces@.len(),
            forall|m: int| 0 <= m < pieces@.len() ==> #[trigger] alts[m] == parse_hotkey(pieces@[m]@),
            forall|i: int| 0 <= i < r@.len() ==> alts.contains(#[trigger] models(r@)[i]),
            forall|j: int| 0 <= j < n ==> covered(models(r@), #[trigger] alts[j]),
            forall|i: int, k: int| 0 <= i < k < r@.len() ==> !same_hotkey(#[trigger] models(r@)[i], #[trigger] models(r@)[k]),
        decreases pieces.len() - n,
    {
        let text = string_of(&pieces[n]);
        let h = Hotkey::new(text.as_str());
        assert(alts[n as int] == h@);
        let mut seen = false;
        let mut i: usize = 0;
        while i < r.len()
            invariant
                i <= r.len(),
                !seen ==> forall|j: int| 0 <= j < i ==> !same_hotkey(#[trigger] models(r@)[j], h@),
                seen ==> covered(models(r@), h@),
            decreases r.len() - i,
        {
            if r[i] == h {
                assert(models(r@)[i as int] == r@[i as int]@);
                seen = true;
            }
            i = i + 1;
        }
        let ghost before = models(r@);
        if !seen {
            r.push(h);
            proof {
                let now = models(r@);
                assert(now =~= before.push(h@));
                assert forall|j: int| 0 <= j < n + 1 implies covered(now, #[trigger] alts[j]) by {
                    if j < n {
                        assert(covered(before, alts[j]));
                        let i = choose|i: int| 0 <= i < before.len() && same_hotkey(#[trigger] before[i], alts[j]);
                        assert(now[i] == before[i]);
                    } else {
                        assert(same_hotkey(now[before.len() as int], alts[j]));
                    }
                }
                assert forall|i: int| 0 <= i < now.len() implies alts.contains(#[trigger] now[i]) by {
                    if i < before.len() {
                        assert(now[i] == before[i]);
                    } else {
                        assert(alts[n as int] == now[i]);
                    }
                }
            }
        }
        n = n + 1;
    }
    assert(forall|i: int| 0 <= i < r@.len() ==> alts.contains(#[trigger] models(r@)[i]));
    r
}

/// The scopes a binding is given: the wildcard when none is named.
pub open spec fn binding_scopes(scopes: Seq<Seq<char>>) -> Seq<Seq<char>> {
    if scopes.len() == 0 {
        seq![wildcard()]
    } else {
        scopes
    }
}

/// A registered key combination: its alternatives and the scopes in which it
/// may fire.
pub struct Binding {
    pub alternatives: Vec<Hotkey>,
    pub scopes: Vec<String>,
}

impl Binding {
    /// The hotkeys of the alternatives.
    pub open spec fn alts(&self) -> Seq<HotkeyModel> {
        models(self.alternatives@)
    }

    /// The scope names.
    pub open spec fn scope_names(&self) -> Seq<Seq<char>> {
        names(self.scopes@)
    }

    /// Whether the binding is satisfied by the held keys and active scopes.
    pub open spec fn satisfied_by<E>(&self, presses: &KeyPresses<E>, active: Set<Seq<char>>) -> bool {
        satisfied(self.alts(), self.scope_names(), presses.pressed(), presses.last(), active)
    }

    /// A binding of the alternatives of a combination string to the given
    /// scopes, or to the wildcard scope when the list is empty.
    pub fn new(key_combination: &str, scopes: Vec<String>) -> (r: Self)
        ensures
            represents(r.alts(), alternatives(key_combination@)),
            r.scope_names() == binding_scopes(names(scopes@)),
    {
        let alts = parse_alternatives(key_combination);
        let scopes = if scopes.len() == 0 {
            let mut v: Vec<String> = Vec::new();
            v.push("*".to_string());
            assert(names(v@) =~= seq![wildcard()]);
            v
        } else {
            scopes
        };
        let r = Binding { alternatives: alts, scopes };
        r
    }

    /// Evaluates the binding: `None` unless it is satisfied, else the index of
    /// the first alternative that matches. The caller runs the callback and
    /// cancels the default handling of the keys of that alternative.
    pub fn evaluate<E>(&self, presses: &KeyPresses<E>, active: &ActiveScopes) -> (r: Option<usize>)
        requires
            presses.wf(),
        ensures
            match r {
                Some(i) => self.satisfied_by(presses, active@) && i < self.alternatives@.len()
                    && hotkey_matches(self.alts()[i as int], presses.pressed())
                    && forall|j: int| 0 <= j < i ==> !hotkey_matches(#[trigger] self.alts()[j], presses.pressed()),
                None => !self.satisfied_by(presses, active@),
            },
    {
        if !within_scope(&self.scopes, active) {
            return None;
        }
        if !is_last_key_match(&self.alternatives, presses) {
            return None;
        }
        match find_match(&self.alternatives, presses) {
            Some(i) => {
                assert(self.alts()[i as int] == self.alternatives@[i as int]@);
                Some(i)
            },
            None => None,
        }
    }
}

} // verus!
