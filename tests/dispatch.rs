use leptos_hotkeys::{
    clean_key, parse_alternatives, provide_hotkeys_context, scopes, ActiveScopes, Binding, Firing,
    Hotkey, HotkeysContext, KeyPresses,
};

fn s(x: &str) -> String {
    x.to_string()
}

fn global() -> HotkeysContext<u32> {
    provide_hotkeys_context(false, scopes(vec![]))
}

fn handles(f: &[Firing]) -> Vec<usize> {
    f.iter().map(|x| x.handle).collect()
}

#[test]
fn clean_key_names_keys_as_the_parser_does() {
    assert_eq!(clean_key("Escape"), "escape");
    assert_eq!(clean_key("G"), "g");
    assert_eq!(clean_key("Control"), "control");
    assert_eq!(clean_key(" "), "spacebar");
    assert_eq!(clean_key("ArrowUp"), "arrowup");
    assert_eq!(Hotkey::new("space").keys, vec![clean_key(" ")]);
    assert_eq!(Hotkey::new("G").keys, vec![clean_key("G")]);
}

#[test]
fn chord_needs_every_key() {
    let mut ctx = global();
    let h = ctx.register("a+b", vec![s("*")]);
    assert!(ctx.key_down(s("a"), 1).is_empty());
    assert_eq!(handles(&ctx.key_down(s("b"), 2)), vec![h]);
}

#[test]
fn alternatives_are_ored() {
    let parsed = parse_alternatives("a,b");
    assert_eq!(parsed.len(), 2);
    assert_ne!(parsed[0], parsed[1]);
    assert_eq!(parsed[0], Hotkey::new("a"));
    assert_eq!(parsed[1], Hotkey::new("b"));

    let mut ctx = global();
    let h = ctx.register("a,b", vec![s("*")]);
    let fired = ctx.key_down(s("a"), 1);
    assert_eq!(fired, vec![Firing { handle: h, alternative: 0 }]);
    ctx.key_up(&s("a"));
    let fired = ctx.key_down(s("b"), 2);
    assert_eq!(fired, vec![Firing { handle: h, alternative: 1 }]);
}

#[test]
fn duplicate_alternatives_collapse() {
    assert_eq!(parse_alternatives("a,a").len(), 1);
    assert_eq!(parse_alternatives("a+b, b+a").len(), 1);
    assert_eq!(parse_alternatives("ctrl+k,control+K").len(), 1);
    assert_eq!(parse_alternatives("a,b,a").len(), 2);
}

#[test]
fn scope_gates_a_binding() {
    let mut ctx = global();
    let h = ctx.register("e", vec![s("editor")]);
    assert!(ctx.key_down(s("e"), 1).is_empty());
    ctx.key_up(&s("e"));
    assert!(ctx.enable_scope(s("editor")).is_empty());
    assert_eq!(handles(&ctx.key_down(s("e"), 2)), vec![h]);
}

#[test]
fn wildcard_scope_fires_without_enabling() {
    let mut ctx = global();
    let h = ctx.register("e", vec![s("editor"), s("*")]);
    assert_eq!(handles(&ctx.key_down(s("e"), 1)), vec![h]);
}

#[test]
fn held_chord_fires_once_per_press() {
    let mut ctx = global();
    let h = ctx.register("ctrl+k", vec![s("*")]);
    assert!(ctx.key_down(s("controlleft"), 1).is_empty());
    assert_eq!(handles(&ctx.key_down(s("k"), 2)), vec![h]);
    for n in 3..10 {
        assert!(ctx.key_down(s("k"), n).is_empty());
    }
    assert!(ctx.key_up(&s("k")).is_empty());
    assert_eq!(handles(&ctx.key_down(s("k"), 11)), vec![h]);
    assert!(ctx.key_up(&s("k")).is_empty());
    assert!(ctx.key_up(&s("controlleft")).is_empty());
    assert!(ctx.key_down(s("controlleft"), 12).is_empty());
    assert_eq!(handles(&ctx.key_down(s("k"), 13)), vec![h]);
}

#[test]
fn losing_focus_forgets_held_keys() {
    let mut ctx = global();
    let h = ctx.register("ctrl+k", vec![s("*")]);
    ctx.key_down(s("controlleft"), 1);
    assert!(ctx.focus_lost().is_empty());
    assert!(!ctx.key_presses().is_pressed(&s("controlleft")));
    assert_eq!(ctx.key_presses().last_key(), None);
    assert!(ctx.key_down(s("k"), 2).is_empty());
    let _ = h;
}

#[test]
fn losing_focus_can_keep_held_keys() {
    let mut ctx: HotkeysContext<u32> = provide_hotkeys_context(true, scopes(vec![]));
    let h = ctx.register("ctrl+k", vec![s("*")]);
    ctx.key_down(s("controlleft"), 1);
    assert!(ctx.focus_lost().is_empty());
    assert!(ctx.key_presses().is_pressed(&s("controlleft")));
    assert_eq!(handles(&ctx.key_down(s("k"), 2)), vec![h]);
}

#[test]
fn escape_fires_again_after_release() {
    let mut ctx = global();
    let h = ctx.register("escape", vec![s("*")]);
    let key = clean_key("Escape");
    let mut count = 0;
    count += handles(&ctx.key_down(key.clone(), 1)).iter().filter(|x| **x == h).count();
    assert_eq!(count, 1);
    count += handles(&ctx.key_up(&key)).len();
    count += handles(&ctx.key_down(key.clone(), 2)).iter().filter(|x| **x == h).count();
    assert_eq!(count, 2);
}

#[test]
fn scoped_chord_fires_after_enabling_scope() {
    let mut ctx = global();
    let h = ctx.register("g+control", vec![s("nav")]);
    let mut count = 0;
    count += ctx.key_down(s("controlleft"), 1).len();
    count += ctx.key_down(s("g"), 2).len();
    count += ctx.key_up(&s("g")).len();
    count += ctx.key_up(&s("controlleft")).len();
    assert_eq!(count, 0);
    ctx.enable_scope(s("nav"));
    count += ctx.key_down(s("controlleft"), 3).len();
    let fired = ctx.key_down(s("g"), 4);
    count += fired.len();
    count += ctx.key_up(&s("g")).len();
    count += ctx.key_up(&s("controlleft")).len();
    assert_eq!(count, 1);
    assert_eq!(handles(&fired), vec![h]);
}

#[test]
fn last_key_gate_needs_a_key_of_the_binding() {
    let mut ctx = global();
    ctx.register("ctrl+k", vec![s("*")]);
    ctx.key_down(s("k"), 1);
    assert!(ctx.key_down(s("controlleft"), 2).is_empty());
}

#[test]
fn enabling_scope_while_held_fires() {
    let mut ctx = global();
    let h = ctx.register("g", vec![s("nav")]);
    assert!(ctx.key_down(s("g"), 1).is_empty());
    assert_eq!(handles(&ctx.enable_scope(s("nav"))), vec![h]);
    assert!(ctx.disable_scope(&s("nav")).is_empty());
    assert!(ctx.toggle_scope(s("nav")).is_empty());
    ctx.toggle_scope(s("nav"));
    ctx.begin_event();
    assert_eq!(handles(&ctx.toggle_scope(s("nav"))), vec![h]);
}

#[test]
fn registering_while_held_does_not_fire() {
    let mut ctx = global();
    ctx.key_down(s("q"), 1);
    let h = ctx.register("q", vec![s("*")]);
    assert!(ctx.key_down(s("q"), 2).is_empty());
    ctx.key_up(&s("q"));
    assert_eq!(handles(&ctx.key_down(s("q"), 3)), vec![h]);
}

#[test]
fn removed_binding_never_fires() {
    let mut ctx = global();
    let a = ctx.register("q", vec![s("*")]);
    let b = ctx.register("q", vec![]);
    ctx.unregister(a);
    assert!(ctx.binding(a).is_none());
    assert!(ctx.binding(b).is_some());
    assert_eq!(handles(&ctx.key_down(s("q"), 1)), vec![b]);
    ctx.unregister(99);
}

#[test]
fn bindings_fire_in_handle_order() {
    let mut ctx = global();
    let a = ctx.register("x", vec![s("*")]);
    let b = ctx.register("y", vec![s("*")]);
    let c = ctx.register("x", vec![s("*")]);
    assert_eq!(handles(&ctx.key_down(s("x"), 1)), vec![a, c]);
    assert_eq!(handles(&ctx.key_down(s("y"), 2)), vec![b]);
}

#[test]
fn binding_without_scopes_is_global() {
    let b = Binding::new("a", vec![]);
    assert_eq!(b.scopes, vec![s("*")]);
    let b = Binding::new("a", vec![s("x")]);
    assert_eq!(b.scopes, vec![s("x")]);
}

#[test]
fn element_binding_is_evaluated_directly() {
    let mut presses: KeyPresses<u32> = KeyPresses::new();
    let active = ActiveScopes::global();
    let b = Binding::new("ctrl+s,meta+s", vec![]);
    assert_eq!(b.evaluate(&presses, &active), None);
    presses.key_down(s("metaleft"), 1);
    presses.key_down(s("s"), 2);
    assert_eq!(b.evaluate(&presses, &active), Some(1));
    assert_eq!(b.evaluate(&presses, &active), Some(1));
    presses.key_down(s("controlright"), 3);
    assert_eq!(b.evaluate(&presses, &active), None);
    presses.key_down(s("s"), 4);
    assert_eq!(b.evaluate(&presses, &active), Some(0));
    assert_eq!(b.evaluate(&presses, &ActiveScopes::empty()), None);
}

#[test]
fn key_presses_track_last_key() {
    let mut p: KeyPresses<u32> = KeyPresses::new();
    p.key_down(s("a"), 1);
    p.key_down(s("b"), 2);
    assert_eq!(p.last_key(), Some(s("b")));
    p.key_up(&s("a"));
    assert_eq!(p.last_key(), Some(s("b")));
    assert!(!p.is_pressed(&s("a")));
    p.key_down(s("b"), 3);
    assert_eq!(p.event(&s("b")), Some(&3));
    assert_eq!(p.pressed_keys(), vec![s("b")]);
    p.key_up(&s("b"));
    assert_eq!(p.last_key(), None);
    assert!(p.pressed_keys().is_empty());
    p.key_down(s("c"), 4);
    p.clear();
    assert!(p.pressed_keys().is_empty());
    assert_eq!(p.event(&s("c")), None);
}

#[test]
fn scope_operations() {
    let mut a = ActiveScopes::global();
    assert!(a.contains(&s("*")));
    a.enable(s("x"));
    a.enable(s("x"));
    assert_eq!(a.to_vec().len(), 2);
    a.disable(&s("x"));
    assert!(!a.contains(&s("x")));
    a.disable(&s("x"));
    a.toggle(s("y"));
    assert!(a.contains(&s("y")));
    a.toggle(s("y"));
    assert!(!a.contains(&s("y")));
    let b = ActiveScopes::from_names(vec![s("p"), s("q"), s("p")]);
    assert_eq!(b.to_vec(), vec![s("p"), s("q")]);
    assert_eq!(scopes(vec![s("nav")]), vec![s("*"), s("nav")]);
}

#[test]
fn initial_scopes_replace_the_wildcard() {
    let mut ctx: HotkeysContext<u32> = provide_hotkeys_context(false, vec![s("nav")]);
    assert!(!ctx.is_scope_active(&s("*")));
    assert!(ctx.is_scope_active(&s("nav")));
    ctx.register("g", vec![s("*")]);
    assert!(ctx.key_down(s("g"), 1).is_empty());
}

#[test]
fn space_binding_fires_from_key_value() {
    let mut ctx = global();
    let h = ctx.register("space", vec![]);
    assert_eq!(handles(&ctx.key_down(clean_key(" "), 1)), vec![h]);
}

#[test]
fn scoped_chord_fires_through_key_values() {
    let mut ctx = global();
    let h = ctx.register("g+control", vec![s("nav")]);
    assert!(ctx.key_down(clean_key("Control"), 1).is_empty());
    assert!(ctx.key_down(clean_key("g"), 2).is_empty());
    ctx.key_up(&clean_key("g"));
    ctx.key_up(&clean_key("Control"));
    ctx.begin_event();
    ctx.enable_scope(s("nav"));
    assert!(ctx.key_down(clean_key("Control"), 3).is_empty());
    assert_eq!(handles(&ctx.key_down(clean_key("g"), 4)), vec![h]);
}

#[test]
fn binding_fires_once_per_event() {
    let mut ctx = global();
    let h = ctx.register("q", vec![s("work")]);
    ctx.enable_scope(s("work"));
    assert_eq!(handles(&ctx.key_down(s("q"), 1)), vec![h]);
    // the callback turns its own scope off and on while the event is handled
    assert!(ctx.disable_scope(&s("work")).is_empty());
    assert!(ctx.enable_scope(s("work")).is_empty());
    assert!(ctx.toggle_scope(s("work")).is_empty());
    assert!(ctx.toggle_scope(s("work")).is_empty());
    // a later change outside that event may fire it again
    ctx.disable_scope(&s("work"));
    ctx.begin_event();
    assert_eq!(handles(&ctx.enable_scope(s("work"))), vec![h]);
}

#[test]
fn evaluate_reports_first_matching_alternative() {
    let mut presses: KeyPresses<u32> = KeyPresses::new();
    presses.key_down(s("a"), 1);
    presses.key_down(s("b"), 2);
    let b = Binding::new("a,b,a+b", vec![]);
    assert_eq!(b.evaluate(&presses, &ActiveScopes::global()), Some(0));
}
