//! Key-combination strings and the `Hotkey` values they denote.

use vstd::prelude::*;
use crate::text::{chars_of, is_word, join, join_chars, lower, lower_chars, split, split_chars, string_of, trim, trim_chars};

verus! {

/// The four modifier flags of a hotkey; a flag that is not set means the
/// modifier is not required.
#[derive(Clone, Copy, Debug, PartialEq, Eq, Structural)]
pub struct KeyboardModifiers {
    pub alt: bool,
    pub ctrl: bool,
    pub meta: bool,
    pub shift: bool,
}

/// No modifier required.
pub open spec fn no_modifiers() -> KeyboardModifiers {
    KeyboardModifiers { alt: false, ctrl: false, meta: false, shift: false }
}

impl Default for KeyboardModifiers {
    fn default() -> (r: Self)
        ensures
            r == no_modifiers(),
    {
        KeyboardModifiers { alt: false, ctrl: false, meta: false, shift: false }
    }
}

/// One modifier key, whatever name it was written with.
#[derive(Clone, Copy, Debug, PartialEq, Eq, Structural)]
pub enum Modifier {
    Alt,
    Ctrl,
    Meta,
    Shift,
}

/// The modifier that a normalized token names, if it names one.
pub open spec fn modifier_of(t: Seq<char>) -> Option<Modifier> {
    if t == "controlleft"@ || t == "controlright"@ || t == "ctrl"@ || t == "control"@ {
        Some(Modifier::Ctrl)
    } else if t == "alt"@ || t == "altleft"@ || t == "altright"@ || t == "option"@ {
        Some(Modifier::Alt)
    } else if t == "metaleft"@ || t == "metaright"@ || t == "meta"@ || t == "command"@ || t
        == "cmd"@ || t == "super"@ || t == "win"@ {
        Some(Modifier::Meta)
    } else if t == "shiftleft"@ || t == "shiftright"@ || t == "shift"@ {
        Some(Modifier::Shift)
    } else {
        None
    }
}

/// A token as written, made canonical: a lone space is the space bar,
/// anything else is trimmed and lower-cased.
pub open spec fn normalize(t: Seq<char>) -> Seq<char> {
    if t == seq![' '] {
        "spacebar"@
    } else {
        lower(trim(t))
    }
}

/// The key identifier of a normalized token that names no modifier.
pub open spec fn key_name(n: Seq<char>) -> Seq<char> {
    if n == "spacebar"@ || n == "space"@ || n == " "@ {
        "spacebar"@
    } else {
        n
    }
}

/// The modifiers with one more flag set.
pub open spec fn with_modifier(m: KeyboardModifiers, k: Modifier) -> KeyboardModifiers {
    match k {
        Modifier::Alt => KeyboardModifiers { alt: true, ..m },
        Modifier::Ctrl => KeyboardModifiers { ctrl: true, ..m },
        Modifier::Meta => KeyboardModifiers { meta: true, ..m },
        Modifier::Shift => KeyboardModifiers { shift: true, ..m },
    }
}

/// What a hotkey is: its modifier flags and its keys in the order written.
pub type HotkeyModel = (KeyboardModifiers, Seq<Seq<char>>);

/// The effect of one more token on a partly read hotkey.
pub open spec fn read_token(h: HotkeyModel, t: Seq<char>) -> HotkeyModel {
    let n = normalize(t);
    match modifier_of(n) {
        Some(k) => (with_modifier(h.0, k), h.1),
        None => (h.0, h.1.push(key_name(n))),
    }
}

/// The tokens read in order, starting from `h`.
pub open spec fn read_tokens(h: HotkeyModel, ts: Seq<Seq<char>>) -> HotkeyModel
    decreases ts.len(),
{
    if ts.len() == 0 {
        h
    } else {
        read_token(read_tokens(h, ts.drop_last()), ts.last())
    }
}

/// The hotkey that one alternative of a key-combination string denotes: the
/// `+`-separated tokens, read left to right.
pub open spec fn parse_hotkey(s: Seq<char>) -> HotkeyModel {
    read_tokens((no_modifiers(), Seq::empty()), split(s, '+'))
}

/// A parsed key combination: the modifier flags that must be held and the
/// keys that must all be held together.
#[derive(Debug)]
pub struct Hotkey {
    pub modifiers: KeyboardModifiers,
    pub keys: Vec<String>,
}

/// The identifiers of a list of keys.
pub open spec fn key_ids(keys: Seq<String>) -> Seq<Seq<char>> {
    keys.map_values(|k: String| k@)
}

impl View for Hotkey {
    type V = HotkeyModel;

    open spec fn view(&self) -> HotkeyModel {
        (self.modifiers, key_ids(self.keys@))
    }
}

fn modifier_of_exec(n: &Vec<char>) -> (r: Option<Modifier>)
    ensures
        r == modifier_of(n@),
{
    if is_word(n, "controlleft") || is_word(n, "controlright") || is_word(n, "ctrl") || is_word(
        n,
        "control",
    ) {
        Some(Modifier::Ctrl)
    } else if is_word(n, "alt") || is_word(n, "altleft") || is_word(n, "altright") || is_word(
        n,
        "option",
    ) {
        Some(Modifier::Alt)
    } else if is_word(n, "metaleft") || is_word(n, "metaright") || is_word(n, "meta") || is_word(
        n,
        "command",
    ) || is_word(n, "cmd") || is_word(n, "super") || is_word(n, "win") {
        Some(Modifier::Meta)
    } else if is_word(n, "shiftleft") || is_word(n, "shiftright") || is_word(n, "shift") {
        Some(Modifier::Shift)
    } else {
        None
    }
}

fn normalize_exec(t: &Vec<char>) -> (r: Vec<char>)
    ensures
        r@ == normalize(t@),
{
    if is_word(t, " ") {
        proof { reveal_strlit(" "); }
        assert(t@ =~= seq![' ']);
        chars_of("spacebar")
    } else {
        proof {
            reveal_strlit(" ");
            if t@ == seq![' '] {
                assert(t@ =~= " "@);
            }
        }
        lower_chars(&trim_chars(t))
    }
}

fn key_name_exec(n: Vec<char>) -> (r: String)
    ensures
        r@ == key_name(n@),
{
    if is_word(&n, "spacebar") || is_word(&n, "space") || is_word(&n, " ") {
        "spacebar".to_string()
    } else {
        string_of(&n)
    }
}

impl Hotkey {
    /// Parses one alternative of a key-combination string. Parsing never
    /// fails: a token that names no modifier is a key.
    pub fn new(key_combination: &str) -> (r: Self)
        ensures
            r@ == parse_hotkey(key_combination@),
    {
        let cs = chars_of(key_combination);
        let parts = split_chars(&cs, '+');
        let ghost ts = parts@.map_values(|p: Vec<char>| p@);
        let mut modifiers = KeyboardModifiers { alt: false, ctrl: false, meta: false, shift: false };
        let mut keys: Vec<String> = Vec::new();
        let mut i: usize = 0;
        while i < parts.len()
            invariant
                i <= parts.len(),
                ts == parts@.map_values(|p: Vec<char>| p@),
                ts == split(key_combination@, '+'),
                (modifiers, key_ids(keys@)) == read_tokens(
                    (no_modifiers(), Seq::empty()),
                    ts.subrange(0, i as int),
                ),
            decreases parts.len() - i,
        {
            let ghost h = (modifiers, key_ids(keys@));
            let n = normalize_exec(&parts[i]);
            proof {
                let q = ts.subrange(0, i as int + 1);
                assert(q.drop_last() =~= ts.subrange(0, i as int));
            }
            match modifier_of_exec(&n) {
                Some(Modifier::Alt) => { modifiers.alt = true; },
                Some(Modifier::Ctrl) => { modifiers.ctrl = true; },
                Some(Modifier::Meta) => { modifiers.meta = true; },
                Some(Modifier::Shift) => { modifiers.shift = true; },
                None => {
                    let k = key_name_exec(n);
                    keys.push(k);
                    assert(key_ids(keys@) =~= h.1.push(k@));
                },
            }
            i = i + 1;
        }
        assert(ts.subrange(0, ts.len() as int) =~= ts);
        Hotkey { modifiers, keys }
    }
}

/// Whether `k` is one of the listed keys.
pub fn has_key(keys: &Vec<String>, k: &String) -> (r: bool)
    ensures
        r == key_ids(keys@).contains(k@),
{
    let mut i: usize = 0;
    while i < keys.len()
        invariant
            i <= keys.len(),
            forall|j: int| 0 <= j < i ==> keys@[j]@ != k@,
        decreases keys.len() - i,
    {
        if keys[i].eq(k) {
            assert(key_ids(keys@)[i as int] == k@);
            return true;
        }
        i = i + 1;
    }
    assert(!key_ids(keys@).contains(k@)) by {
        if key_ids(keys@).contains(k@) {
            let j = choose|j: int| 0 <= j < key_ids(keys@).len() && key_ids(keys@)[j] == k@;
            assert(keys@[j]@ == k@);
        }
    }
    false
}

/// Whether every key of `a` is among the keys of `b`.
fn keys_within(a: &Vec<String>, b: &Vec<String>) -> (r: bool)
    ensures
        r == (forall|i: int| 0 <= i < a@.len() ==> key_ids(b@).contains(#[trigger] a@[i]@)),
{
    let mut i: usize = 0;
    while i < a.len()
        invariant
            i <= a.len(),
            forall|j: int| 0 <= j < i ==> key_ids(b@).contains(#[trigger] a@[j]@),
        decreases a.len() - i,
    {
        if !has_key(b, &a[i]) {
            return false;
        }
        i = i + 1;
    }
    true
}

/// Two hotkeys are the same when they require the same modifiers and the
/// same set of keys; order and repetition of keys do not matter.
pub open spec fn same_hotkey(a: HotkeyModel, b: HotkeyModel) -> bool {
    a.0 == b.0 && a.1.to_set() == b.1.to_set()
}

impl PartialEq for Hotkey {
    fn eq(&self, other: &Hotkey) -> (r: bool) {
        let r = self.modifiers == other.modifiers && keys_within(&self.keys, &other.keys)
            && keys_within(&other.keys, &self.keys);
        proof {
            let a = self@.1;
            let b = other@.1;
            if r {
                assert forall|x: Seq<char>| a.to_set().contains(x) <==> b.to_set().contains(x) by {
                    if a.contains(x) {
                        let i = choose|i: int| 0 <= i < a.len() && a[i] == x;
                        assert(self.keys@[i]@ == x);
                    }
                    if b.contains(x) {
                        let i = choose|i: int| 0 <= i < b.len() && b[i] == x;
                        assert(other.keys@[i]@ == x);
                    }
                }
                assert(a.to_set() =~= b.to_set());
            } else if self.modifiers == other.modifiers {
                if a.to_set() == b.to_set() {
                    assert forall|i: int| 0 <= i < self.keys@.len() implies key_ids(
                        other.keys@,
                    ).contains(#[trigger] self.keys@[i]@) by {
                        assert(a[i] == self.keys@[i]@);
                        assert(a.to_set().contains(a[i]));
                    }
                    assert forall|i: int| 0 <= i < other.keys@.len() implies key_ids(
                        self.keys@,
                    ).contains(#[trigger] other.keys@[i]@) by {
                        assert(b[i] == other.keys@[i]@);
                        assert(b.to_set().contains(b[i]));
                    }
                }
            }
        }
        r
    }
}

impl vstd::std_specs::cmp::PartialEqSpecImpl for Hotkey {
    open spec fn obeys_eq_spec() -> bool {
        true
    }

    open spec fn eq_spec(&self, other: &Hotkey) -> bool {
        same_hotkey(self@, other@)
    }
}

/// The display names of the modifiers that are set, in the order Alt, Ctrl,
/// Meta, Shift.
pub open spec fn modifier_names(m: KeyboardModifiers) -> Seq<Seq<char>> {
    (if m.alt { seq!["Alt"@] } else { Seq::empty() }) + (if m.ctrl { seq!["Ctrl"@] } else { Seq::empty() })
        + (if m.meta { seq!["Meta"@] } else { Seq::empty() }) + (if m.shift { seq!["Shift"@] } else { Seq::empty() })
}

/// The text of a set of modifiers: empty when none is set, else a `+` before
/// each name.
pub open spec fn display_modifiers(m: KeyboardModifiers) -> Seq<char> {
    if modifier_names(m).len() == 0 {
        Seq::empty()
    } else {
        seq!['+'] + join(modifier_names(m), '+')
    }
}

/// The text of a hotkey: its keys joined by `+`, then the text of its
/// modifiers; with no keys, the modifier names alone, joined by `+`.
pub open spec fn display_hotkey(h: HotkeyModel) -> Seq<char> {
    join(h.1 + modifier_names(h.0), '+')
}

fn modifier_parts(m: KeyboardModifiers, parts: &mut Vec<Vec<char>>)
    ensures
        final(parts)@.map_values(|p: Vec<char>| p@) == old(parts)@.map_values(|p: Vec<char>| p@) + modifier_names(m),
{
    let ghost start = old(parts)@.map_values(|p: Vec<char>| p@);
    let ghost mut want: Seq<Seq<char>> = Seq::empty();
    if m.alt {
        parts.push(chars_of("Alt"));
        proof { want = want.push("Alt"@); }
    }
    assert(parts@.map_values(|p: Vec<char>| p@) =~= start + want);
    if m.ctrl {
        parts.push(chars_of("Ctrl"));
        proof { want = want.push("Ctrl"@); }
    }
    assert(parts@.map_values(|p: Vec<char>| p@) =~= start + want);
    if m.meta {
        parts.push(chars_of("Meta"));
        proof { want = want.push("Meta"@); }
    }
    assert(parts@.map_values(|p: Vec<char>| p@) =~= start + want);
    if m.shift {
        parts.push(chars_of("Shift"));
        proof { want = want.push("Shift"@); }
    }
    assert(parts@.map_values(|p: Vec<char>| p@) =~= start + want);
    assert(want =~= modifier_names(m));
}

impl KeyboardModifiers {
    /// The text of the modifiers: empty when none is set, else `+` before
    /// each name, as in `+Alt+Ctrl`.
    pub fn to_string(&self) -> (r: String)
        ensures
            r@ == display_modifiers(*self),
    {
        let mut parts: Vec<Vec<char>> = Vec::new();
        modifier_parts(*self, &mut parts);
        assert(parts@.map_values(|p: Vec<char>| p@) =~= modifier_names(*self));
        if parts.len() == 0 {
            return String::new();
        }
        let mut cs: Vec<char> = Vec::new();
        cs.push('+');
        let mut joined = join_chars(&parts, '+');
        let ghost j = joined@;
        cs.append(&mut joined);
        assert(cs@ =~= seq!['+'] + j);
        string_of(&cs)
    }
}

impl Hotkey {
    /// Whether `key` is one of this hotkey's keys.
    pub fn includes_key(&self, key: &String) -> (r: bool)
        ensures
            r == self@.1.contains(key@),
    {
        has_key(&self.keys, key)
    }

    /// The text of this hotkey, which parses back to it.
    pub fn to_string(&self) -> (r: String)
        ensures
            r@ == display_hotkey(self@),
    {
        let mut parts: Vec<Vec<char>> = Vec::new();
        let mut i: usize = 0;
        while i < self.keys.len()
            invariant
                i <= self.keys.len(),
                parts@.map_values(|p: Vec<char>| p@) == self@.1.subrange(0, i as int),
            decreases self.keys.len() - i,
        {
            let ghost before = parts@.map_values(|p: Vec<char>| p@);
            parts.push(chars_of(self.keys[i].as_str()));
            assert(parts@.map_values(|p: Vec<char>| p@) =~= before.push(self@.1[i as int]));
            assert(self@.1.subrange(0, i as int + 1) =~= self@.1.subrange(0, i as int).push(self@.1[i as int]));
            i = i + 1;
        }
        assert(self@.1.subrange(0, i as int) =~= self@.1);
        modifier_parts(self.modifiers, &mut parts);
        string_of(&join_chars(&parts, '+'))
    }
}

impl core::str::FromStr for Hotkey {
    type Err = ();

    fn from_str(key_combination: &str) -> (r: Result<Self, Self::Err>)
        ensures
            r matches Ok(h) && h@ == parse_hotkey(key_combination@),
    {
        Ok(Hotkey::new(key_combination))
    }
}

} // verus!
