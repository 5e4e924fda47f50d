//! Laws that relate the parser, the matcher and the context.

use vstd::prelude::*;
use crate::hotkey::{
    display_hotkey, key_name, modifier_names, modifier_of, no_modifiers, normalize, parse_hotkey,
    read_token, read_tokens, with_modifier, HotkeyModel, KeyboardModifiers, Modifier,
};
use crate::binding::{alternatives, hotkey_matches, in_scope, some_match, Binding};
use crate::presses::{key_identifier, KeyPresses};
use crate::context::{marks_after, Firing, HotkeysContext};
use crate::text::{
    is_space, lemma_lower_idempotent, lemma_split_concat, lemma_split_join, lemma_split_lower, lemma_split_nonempty,
    lemma_split_pieces, lemma_trim_lower, lemma_trim_shape, lower, lower_char, split, trim, trim_end, join,
    trim_start,
};

verus! {

proof fn lemma_normalize_lower(t: Seq<char>)
    ensures
        normalize(lower(t)) == normalize(t),
{
    if t == seq![' '] {
        assert(t.len() == 1);
        assert(t[0] == ' ');
        assert(lower(t).len() == 1);
        assert(lower(t)[0] == lower_char(t[0]));
        assert(lower(t) =~= seq![' ']);
    } else {
        if lower(t) == seq![' '] {
            assert(lower(t).len() == t.len());
            assert(t.len() == 1);
            assert(lower(t)[0] == lower_char(t[0]));
            assert(t =~= seq![' ']);
        }
        lemma_trim_lower(t);
        lemma_lower_idempotent(trim(t));
    }
}

proof fn lemma_read_tokens_lower(h: HotkeyModel, ts: Seq<Seq<char>>)
    ensures
        read_tokens(h, ts.map_values(|t: Seq<char>| lower(t))) == read_tokens(h, ts),
    decreases ts.len(),
{
    if ts.len() > 0 {
        let lt = ts.map_values(|t: Seq<char>| lower(t));
        assert(lt.drop_last() =~= ts.drop_last().map_values(|t: Seq<char>| lower(t)));
        lemma_read_tokens_lower(h, ts.drop_last());
        lemma_normalize_lower(ts.last());
    }
}

/// Case does not matter: a combination string parses to the same hotkey as
/// its lower-cased form.
pub proof fn lemma_case_insensitive(s: Seq<char>)
    ensures
        parse_hotkey(lower(s)) == parse_hotkey(s),
{
    lemma_split_lower(s, '+');
    lemma_read_tokens_lower((no_modifiers(), Seq::empty()), split(s, '+'));
}

/// A key identifier as the parser leaves it: it reads back as itself.
pub open spec fn canonical_key(k: Seq<char>) -> bool {
    &&& !k.contains('+')
    &&& lower(k) == k
    &&& trim(k) == k
    &&& k != seq![' ']
    &&& modifier_of(k) is None
    &&& key_name(k) == k
}

proof fn lemma_plain_word(w: Seq<char>)
    requires
        w.len() > 1,
        forall|i: int| 0 <= i < w.len() ==> 'a' <= #[trigger] w[i] <= 'z',
    ensures
        lower(w) == w,
        trim(w) == w,
        !w.contains('+'),
        w != seq![' '],
{
    assert(lower(w) =~= w);
    assert(!is_space(w[0]));
    assert(!is_space(w.last()));
    assert(trim_start(w) == w);
    assert(trim_end(w) == w);
    if w.contains('+') {
        let k = choose|k: int| 0 <= k < w.len() && w[k] == '+';
        assert('a' <= w[k]);
    }
}

proof fn lemma_spacebar_canonical()
    ensures
        canonical_key("spacebar"@),
{
    reveal_strlit("spacebar");
    reveal_strlit("space");
    reveal_strlit(" ");
    reveal_strlit("controlleft");
    reveal_strlit("controlright");
    reveal_strlit("ctrl");
    reveal_strlit("control");
    reveal_strlit("alt");
    reveal_strlit("altleft");
    reveal_strlit("altright");
    reveal_strlit("option");
    reveal_strlit("metaleft");
    reveal_strlit("metaright");
    reveal_strlit("meta");
    reveal_strlit("command");
    reveal_strlit("cmd");
    reveal_strlit("super");
    reveal_strlit("win");
    reveal_strlit("shiftleft");
    reveal_strlit("shiftright");
    reveal_strlit("shift");
    let w = "spacebar"@;
    lemma_plain_word(w);
    assert(w[0] == 's' && "metaleft"@[0] == 'm');
    assert(w[1] == 'p' && "shiftleft"@.len() == 9);
}

proof fn lemma_key_canonical(t: Seq<char>)
    requires
        !t.contains('+'),
        modifier_of(normalize(t)) is None,
    ensures
        canonical_key(key_name(normalize(t))),
{
    let n = normalize(t);
    if n == "spacebar"@ || n == "space"@ || n == " "@ {
        lemma_spacebar_canonical();
    } else {
        assert(t != seq![' ']);
        let u = trim(t);
        lemma_trim_shape(t);
        lemma_lower_idempotent(u);
        lemma_trim_lower(u);
        assert(!n.contains('+')) by {
            if n.contains('+') {
                let k = choose|k: int| 0 <= k < n.len() && n[k] == '+';
                assert(lower_char(u[k]) == '+');
                assert(u.contains(u[k]));
            }
        }
        if n == seq![' '] {
            assert(n[0] == ' ');
            assert(trim_start(n) == trim_start(n.drop_first()));
            assert(n.drop_first() =~= Seq::<char>::empty());
            assert(trim(n).len() == 0);
        }
    }
}

proof fn lemma_keys_canonical(h: HotkeyModel, ts: Seq<Seq<char>>)
    requires
        forall|i: int| 0 <= i < h.1.len() ==> canonical_key(#[trigger] h.1[i]),
        forall|k: int| 0 <= k < ts.len() ==> !(#[trigger] ts[k]).contains('+'),
    ensures
        forall|i: int| 0 <= i < read_tokens(h, ts).1.len() ==> canonical_key(#[trigger] read_tokens(h, ts).1[i]),
    decreases ts.len(),
{
    if ts.len() > 0 {
        lemma_keys_canonical(h, ts.drop_last());
        let t = ts.last();
        let r = read_tokens(h, ts.drop_last());
        assert(!ts[ts.len() - 1].contains('+'));
        if modifier_of(normalize(t)) is None {
            lemma_key_canonical(t);
            let ks = r.1.push(key_name(normalize(t)));
            assert(read_tokens(h, ts).1 == ks);
            assert forall|i: int| 0 <= i < ks.len() implies canonical_key(#[trigger] ks[i]) by {
                if i < r.1.len() {
                    assert(ks[i] == r.1[i]);
                }
            }
        } else {
            assert(read_tokens(h, ts).1 == r.1);
        }
    }
}

proof fn lemma_parse_not_empty(h: HotkeyModel, ts: Seq<Seq<char>>)
    requires
        ts.len() > 0,
    ensures
        read_tokens(h, ts).1.len() > 0 || read_tokens(h, ts).0 != no_modifiers(),
{
}

proof fn lemma_read_tokens_append(h: HotkeyModel, a: Seq<Seq<char>>, b: Seq<Seq<char>>)
    ensures
        read_tokens(h, a + b) == read_tokens(read_tokens(h, a), b),
    decreases b.len(),
{
    if b.len() == 0 {
        assert(a + b =~= a);
    } else {
        lemma_read_tokens_append(h, a, b.drop_last());
        assert((a + b).drop_last() =~= a + b.drop_last());
        assert((a + b).last() == b.last());
    }
}

proof fn lemma_read_canonical(h: HotkeyModel, ks: Seq<Seq<char>>)
    requires
        forall|i: int| 0 <= i < ks.len() ==> canonical_key(#[trigger] ks[i]),
    ensures
        read_tokens(h, ks) == (h.0, h.1 + ks),
    decreases ks.len(),
{
    if ks.len() == 0 {
        assert(h.1 + ks =~= h.1);
    } else {
        lemma_read_canonical(h, ks.drop_last());
        let k = ks.last();
        assert(canonical_key(ks[ks.len() - 1]));
        assert(normalize(k) == k);
        assert((h.1 + ks.drop_last()).push(k) =~= h.1 + ks);
    }
}

proof fn lemma_read_one(h: HotkeyModel, w: Seq<char>)
    ensures
        read_tokens(h, seq![w]) == read_token(h, w),
{
    assert(seq![w].drop_last() =~= Seq::<Seq<char>>::empty());
    assert(read_tokens(h, Seq::<Seq<char>>::empty()) == h);
    assert(seq![w].last() == w);
}

proof fn lemma_name_word(w: Seq<char>, lw: Seq<char>)
    requires
        w.len() > 1,
        lw.len() == w.len(),
        forall|i: int| 0 <= i < w.len() ==> ('a' <= #[trigger] w[i] <= 'z' || 'A' <= w[i] <= 'Z') && lw[i] == lower_char(w[i]),
    ensures
        normalize(w) == lw,
        !w.contains('+'),
{
    assert(!is_space(w[0]));
    assert(!is_space(w.last()));
    assert(trim_start(w) == w);
    assert(trim_end(w) == w);
    assert(w != seq![' ']) by {
        if w == seq![' '] {
            assert(w.len() == 1);
        }
    }
    assert(lower(w) =~= lw);
    if w.contains('+') {
        let k = choose|k: int| 0 <= k < w.len() && w[k] == '+';
        assert('a' <= w[k] <= 'z' || 'A' <= w[k] <= 'Z');
    }
}

proof fn lemma_names_words()
    ensures
        normalize("Alt"@) == "alt"@,
        normalize("Ctrl"@) == "ctrl"@,
        normalize("Meta"@) == "meta"@,
        normalize("Shift"@) == "shift"@,
        !"Alt"@.contains('+'),
        !"Ctrl"@.contains('+'),
        !"Meta"@.contains('+'),
        !"Shift"@.contains('+'),
{
    reveal_strlit("Alt");
    reveal_strlit("alt");
    reveal_strlit("Ctrl");
    reveal_strlit("ctrl");
    reveal_strlit("Meta");
    reveal_strlit("meta");
    reveal_strlit("Shift");
    reveal_strlit("shift");
    lemma_name_word("Alt"@, "alt"@);
    lemma_name_word("Ctrl"@, "ctrl"@);
    lemma_name_word("Meta"@, "meta"@);
    lemma_name_word("Shift"@, "shift"@);
}

proof fn lemma_read_name(h: HotkeyModel, w: Seq<char>, k: Modifier)
    requires
        w == "Alt"@ && k == Modifier::Alt || w == "Ctrl"@ && k == Modifier::Ctrl || w == "Meta"@ && k
            == Modifier::Meta || w == "Shift"@ && k == Modifier::Shift,
    ensures
        read_tokens(h, seq![w]) == (with_modifier(h.0, k), h.1),
{
    reveal_strlit("controlleft");
    reveal_strlit("controlright");
    reveal_strlit("ctrl");
    reveal_strlit("control");
    reveal_strlit("alt");
    reveal_strlit("altleft");
    reveal_strlit("altright");
    reveal_strlit("option");
    reveal_strlit("metaleft");
    reveal_strlit("metaright");
    reveal_strlit("meta");
    reveal_strlit("command");
    reveal_strlit("cmd");
    reveal_strlit("super");
    reveal_strlit("win");
    reveal_strlit("shift");
    lemma_read_one(h, w);
    lemma_names_words();
    assert("ctrl"@[0] == 'c' && "meta"@[0] == 'm');
    assert("super"@[1] == 'u' && "shift"@[1] == 'h');
    if k == Modifier::Alt {
        assert(normalize(w) == "alt"@);
        assert(modifier_of("alt"@) == Some(Modifier::Alt));
    } else if k == Modifier::Ctrl {
        assert(normalize(w) == "ctrl"@);
        assert(modifier_of("ctrl"@) == Some(Modifier::Ctrl));
    } else if k == Modifier::Meta {
        assert(normalize(w) == "meta"@);
        assert(modifier_of("meta"@) == Some(Modifier::Meta));
    } else {
        assert(normalize(w) == "shift"@);
        assert(modifier_of("shift"@) == Some(Modifier::Shift));
    }
}

proof fn lemma_read_names(ks: Seq<Seq<char>>, m: KeyboardModifiers)
    ensures
        read_tokens((no_modifiers(), ks), modifier_names(m)) == (m, ks),
{
    let a: Seq<Seq<char>> = if m.alt { seq!["Alt"@] } else { Seq::empty() };
    let b: Seq<Seq<char>> = if m.ctrl { seq!["Ctrl"@] } else { Seq::empty() };
    let c: Seq<Seq<char>> = if m.meta { seq!["Meta"@] } else { Seq::empty() };
    let d: Seq<Seq<char>> = if m.shift { seq!["Shift"@] } else { Seq::empty() };
    let h0 = (no_modifiers(), ks);
    lemma_read_tokens_append(h0, a + b + c, d);
    lemma_read_tokens_append(h0, a + b, c);
    lemma_read_tokens_append(h0, a, b);
    let h1 = read_tokens(h0, a);
    if m.alt { lemma_read_name(h0, "Alt"@, Modifier::Alt); }
    assert(h1 == (KeyboardModifiers { alt: m.alt, ..no_modifiers() }, ks));
    let h2 = read_tokens(h1, b);
    if m.ctrl { lemma_read_name(h1, "Ctrl"@, Modifier::Ctrl); }
    assert(h2 == (KeyboardModifiers { alt: m.alt, ctrl: m.ctrl, ..no_modifiers() }, ks));
    let h3 = read_tokens(h2, c);
    if m.meta { lemma_read_name(h2, "Meta"@, Modifier::Meta); }
    assert(h3 == (KeyboardModifiers { alt: m.alt, ctrl: m.ctrl, meta: m.meta, shift: false }, ks));
    let h4 = read_tokens(h3, d);
    if m.shift { lemma_read_name(h3, "Shift"@, Modifier::Shift); }
    assert(h4 == (m, ks));
}

proof fn lemma_names_plain(m: KeyboardModifiers)
    ensures
        forall|k: int| 0 <= k < modifier_names(m).len() ==> !(#[trigger] modifier_names(m)[k]).contains('+'),
        m != no_modifiers() ==> modifier_names(m).len() > 0,
{
    lemma_names_words();
}

/// Parsing is idempotent on canonical text: the canonical text of a parsed
/// hotkey parses back to the same hotkey.
pub proof fn lemma_display_round_trip(s: Seq<char>)
    ensures
        parse_hotkey(display_hotkey(parse_hotkey(s))) == parse_hotkey(s),
{
    let init: HotkeyModel = (no_modifiers(), Seq::empty());
    let ts = split(s, '+');
    let h = parse_hotkey(s);
    lemma_split_pieces(s, '+');
    lemma_split_nonempty(s, '+');
    lemma_keys_canonical(init, ts);
    lemma_parse_not_empty(init, ts);
    lemma_names_plain(h.0);
    let parts = h.1 + modifier_names(h.0);
    assert forall|k: int| 0 <= k < parts.len() implies !(#[trigger] parts[k]).contains('+') by {
        if k < h.1.len() {
            assert(canonical_key(h.1[k]));
        } else {
            assert(parts[k] == modifier_names(h.0)[k - h.1.len()]);
        }
    }
    lemma_split_join(parts, '+');
    lemma_read_tokens_append(init, h.1, modifier_names(h.0));
    lemma_read_canonical(init, h.1);
    assert(Seq::<Seq<char>>::empty() + h.1 =~= h.1);
    lemma_read_names(h.1, h.0);
}

proof fn lemma_read_tokens_synonyms(h: HotkeyModel, ts1: Seq<Seq<char>>, ts2: Seq<Seq<char>>)
    requires
        ts1.len() == ts2.len(),
        forall|i: int| 0 <= i < ts1.len() ==> #[trigger] ts1[i] == ts2[i] || (modifier_of(normalize(ts1[i])) is Some
            && modifier_of(normalize(ts1[i])) == modifier_of(normalize(ts2[i]))),
    ensures
        read_tokens(h, ts1) == read_tokens(h, ts2),
    decreases ts1.len(),
{
    if ts1.len() > 0 {
        let n = ts1.len() - 1;
        assert(ts1[n] == ts2[n] || modifier_of(normalize(ts1[n])) is Some);
        lemma_read_tokens_synonyms(h, ts1.drop_last(), ts2.drop_last());
    }
}

/// Modifier synonyms are interchangeable: two combination strings whose
/// `+`-separated tokens agree, except where both tokens name the same
/// modifier (`ctrl`, `control`, `controlleft`, ...), parse to the same hotkey.
pub proof fn lemma_modifier_synonyms(s1: Seq<char>, s2: Seq<char>)
    requires
        split(s1, '+').len() == split(s2, '+').len(),
        forall|i: int| 0 <= i < split(s1, '+').len() ==> #[trigger] split(s1, '+')[i] == split(s2, '+')[i] || (
        modifier_of(normalize(split(s1, '+')[i])) is Some && modifier_of(normalize(split(s1, '+')[i]))
            == modifier_of(normalize(split(s2, '+')[i]))),
    ensures
        parse_hotkey(s1) == parse_hotkey(s2),
{
    lemma_read_tokens_synonyms((no_modifiers(), Seq::empty()), split(s1, '+'), split(s2, '+'));
}

/// A chord needs all of its keys: a hotkey one of whose keys is not held does
/// not match, and a hotkey without modifiers matches exactly when all of its
/// keys are held.
pub proof fn lemma_chord_needs_all_keys(h: HotkeyModel, p: Set<Seq<char>>)
    ensures
        (exists|i: int| 0 <= i < h.1.len() && !p.contains(#[trigger] h.1[i])) ==> !hotkey_matches(h, p),
        h.0 == no_modifiers() ==> (hotkey_matches(h, p) <==> h.1.to_set().subset_of(p)),
{
    if h.0 == no_modifiers() {
        if h.1.to_set().subset_of(p) {
            assert forall|i: int| 0 <= i < h.1.len() implies p.contains(#[trigger] h.1[i]) by {
                assert(h.1.to_set().contains(h.1[i]));
            }
        }
        if hotkey_matches(h, p) {
            assert forall|x: Seq<char>| h.1.to_set().contains(x) implies p.contains(x) by {
                let i = choose|i: int| 0 <= i < h.1.len() && h.1[i] == x;
            }
        }
    }
}

/// Alternatives are or-ed: the alternatives of `x,y` are those of `x`
/// followed by those of `y`, so they match the held keys exactly when the
/// alternatives of `x` or those of `y` do.
pub proof fn lemma_alternatives_or(x: Seq<char>, y: Seq<char>, p: Set<Seq<char>>)
    ensures
        alternatives(x.push(',') + y) == alternatives(x) + alternatives(y),
        some_match(alternatives(x.push(',') + y), p) <==> some_match(alternatives(x), p) || some_match(
            alternatives(y),
            p,
        ),
{
    lemma_split_concat(x, y, ',');
    let a = alternatives(x);
    let b = alternatives(y);
    assert(alternatives(x.push(',') + y) =~= a + b);
    let c = a + b;
    if some_match(c, p) {
        let i = choose|i: int| 0 <= i < c.len() && hotkey_matches(#[trigger] c[i], p);
        if i < a.len() {
            assert(c[i] == a[i]);
        } else {
            assert(c[i] == b[i - a.len()]);
        }
    }
    if some_match(a, p) {
        let i = choose|i: int| 0 <= i < a.len() && hotkey_matches(#[trigger] a[i], p);
        assert(c[i] == a[i]);
    }
    if some_match(b, p) {
        let i = choose|i: int| 0 <= i < b.len() && hotkey_matches(#[trigger] b[i], p);
        assert(c[i + a.len()] == b[i]);
    }
}

/// Scopes gate a binding: while none of its scopes is active it is not
/// satisfied, whatever keys are held; once one of its scopes is enabled only
/// the keys decide.
pub proof fn lemma_scope_gate<E>(b: Binding, presses: KeyPresses<E>, active: Set<Seq<char>>, s: Seq<char>)
    ensures
        (forall|i: int| 0 <= i < b.scope_names().len() ==> !active.contains(#[trigger] b.scope_names()[i]))
            ==> !b.satisfied_by(&presses, active),
        b.scope_names().contains(s) ==> in_scope(b.scope_names(), active.insert(s)),
{
    if b.scope_names().contains(s) {
        let i = choose|i: int| 0 <= i < b.scope_names().len() && b.scope_names()[i] == s;
        assert(active.insert(s).contains(b.scope_names()[i]));
    }
}

/// After the held keys were forgotten, as on a loss of focus, no binding is
/// satisfied, and no hotkey that needs Control matches.
pub proof fn lemma_forgotten_keys<E>(b: Binding, h: HotkeyModel, presses: KeyPresses<E>, active: Set<Seq<char>>)
    requires
        presses.pressed() == Set::<Seq<char>>::empty(),
        presses.last() == None::<Seq<char>>,
    ensures
        !b.satisfied_by(&presses, active),
        h.0.ctrl ==> !hotkey_matches(h, presses.pressed()),
{
}

/// A held combination re-arms when released: once a key that every
/// alternative of a binding needs is up, the binding is not satisfied, so it
/// fires again the next time it becomes satisfied.
pub proof fn lemma_release_rearms<E>(b: Binding, presses: KeyPresses<E>, active: Set<Seq<char>>, k: Seq<char>)
    requires
        forall|i: int| 0 <= i < b.alts().len() ==> (#[trigger] b.alts()[i]).1.contains(k),
        !presses.pressed().contains(k),
    ensures
        !b.satisfied_by(&presses, active),
{
    if some_match(b.alts(), presses.pressed()) {
        let i = choose|i: int| 0 <= i < b.alts().len() && hotkey_matches(#[trigger] b.alts()[i], presses.pressed());
        let h = b.alts()[i];
        assert(h.1.contains(k));
        let j = choose|j: int| 0 <= j < h.1.len() && h.1[j] == k;
        assert(presses.pressed().contains(h.1[j]));
    }
}

/// A key event and a combination name the same key: a key value without `+`
/// that is a lone space or has no surrounding whitespace, names no modifier
/// and is not the word `space`, parses as a combination to the one key that
/// `clean_key` gives for it.
pub proof fn lemma_event_key_matches_token(t: Seq<char>)
    requires
        !t.contains('+'),
        t == seq![' '] || trim(t) == t,
        lower(t) != "space"@,
        modifier_of(normalize(t)) is None,
    ensures
        parse_hotkey(t) == (no_modifiers(), seq![key_identifier(t)]),
{
    lemma_split_join(seq![t], '+');
    assert(join(seq![t], '+') == t);
    lemma_read_one((no_modifiers(), Seq::empty()), t);
    reveal_strlit(" ");
    if t != seq![' '] {
        if lower(t) == " "@ {
            assert(lower(t).len() == t.len());
            assert(lower(t)[0] == lower_char(t[0]));
            assert(t =~= seq![' ']);
        }
    }
    assert(Seq::<Seq<char>>::empty().push(key_identifier(t)) =~= seq![key_identifier(t)]);
}

/// A key that repeats while held changes nothing a binding depends on: when
/// the key pressed again is held and is already the last key, every binding
/// is satisfied after the key-down exactly when it was before.
pub proof fn lemma_repeat_keeps_state<E>(prev: HotkeysContext<E>, next: HotkeysContext<E>, k: Seq<char>, e: E)
    requires
        prev.key_state().pressed().contains(k),
        prev.key_state().last() == Some(k),
        next.key_state().key_map() == prev.key_state().key_map().insert(k, e),
        next.key_state().last() == Some(k),
        next.active() == prev.active(),
        next.bindings() == prev.bindings(),
    ensures
        forall|h: int| #[trigger] next.satisfied_at(h) == prev.satisfied_at(h),
{
    assert(next.key_state().pressed() =~= prev.key_state().pressed());
}

/// A binding fires once per press: one that was already satisfied before a
/// change is never among the bindings reported after it.
pub proof fn lemma_held_not_reported<E>(
    prev: HotkeysContext<E>,
    next: HotkeysContext<E>,
    r: Seq<Firing>,
    marks: Seq<bool>,
    h: int,
)
    requires
        next.reports(r, &prev, marks),
        prev.satisfied_at(h),
    ensures
        forall|k: int| 0 <= k < r.len() ==> (#[trigger] r[k]).handle != h,
{
}

/// A binding fires at most once per event: after it was reported, a later
/// report in the same event, made against the marks that include it, leaves
/// it out.
pub proof fn lemma_once_per_event<E>(
    mid: HotkeysContext<E>,
    next: HotkeysContext<E>,
    r1: Seq<Firing>,
    r2: Seq<Firing>,
    marks: Seq<bool>,
    k1: int,
)
    requires
        0 <= k1 < r1.len(),
        0 <= r1[k1].handle < marks.len(),
        next.reports(r2, &mid, marks_after(marks, r1)),
    ensures
        forall|k2: int| 0 <= k2 < r2.len() ==> (#[trigger] r2[k2]).handle != r1[k1].handle,
{
    let h = r1[k1].handle as int;
    assert(marks_after(marks, r1)[h]);
}

/// Blur reset: once the held keys are forgotten, as after the surface lost
/// focus without `allow_blur_event`, no binding of the context is satisfied,
/// even one that needs a key whose key-up never came.
pub proof fn lemma_blur_reset<E>(ctx: HotkeysContext<E>)
    requires
        ctx.key_state().key_map() == Map::<Seq<char>, E>::empty(),
        ctx.key_state().last() == None::<Seq<char>>,
    ensures
        forall|h: int| !#[trigger] ctx.satisfied_at(h),
{
}

} // verus!
