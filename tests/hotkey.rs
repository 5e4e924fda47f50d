use leptos_hotkeys::{Hotkey, KeyboardModifiers};

fn from_string_test_cases() -> Vec<(String, Hotkey)> {
    vec![
        (
            "shift+r+meta".to_string(),
            Hotkey {
                modifiers: KeyboardModifiers { shift: true, ctrl: false, alt: false, meta: true },
                keys: vec!["r".into()],
            },
        ),
        (
            "alt + o + T".to_string(),
            Hotkey {
                modifiers: KeyboardModifiers { shift: false, ctrl: false, alt: true, meta: false },
                keys: vec!["o".into(), "t".into()],
            },
        ),
        (
            "control+L+ 8 + 8".to_string(),
            Hotkey {
                modifiers: KeyboardModifiers { shift: false, ctrl: true, alt: false, meta: false },
                keys: vec!["l".into(), "8".into(), "8".into()],
            },
        ),
        (
            "shift+ctrl+alt+t".to_string(),
            Hotkey {
                modifiers: KeyboardModifiers { shift: true, ctrl: true, alt: true, meta: false },
                keys: vec!["t".into()],
            },
        ),
        (
            "command+k".to_string(),
            Hotkey {
                modifiers: KeyboardModifiers { shift: false, ctrl: false, alt: false, meta: true },
                keys: vec!["k".into()],
            },
        ),
        (
            "cmd+k".to_string(),
            Hotkey {
                modifiers: KeyboardModifiers { shift: false, ctrl: false, alt: false, meta: true },
                keys: vec!["k".into()],
            },
        ),
    ]
}

#[test]
fn hotkey_constructor() {
    for (input, expected) in from_string_test_cases() {
        let hotkey = Hotkey::new(&input);
        assert_eq!(hotkey, expected);

        let hotkey: Hotkey = input.parse().unwrap();
        assert_eq!(hotkey, expected);
    }
}

#[test]
fn hotkey_from_string() {
    for (input, expected) in from_string_test_cases() {
        let hotkey: Hotkey = input.parse().unwrap();
        assert_eq!(hotkey, expected);
    }
}

#[test]
fn keys_keep_their_written_order() {
    let h = Hotkey::new("control+L+ 8 + 8");
    assert_eq!(h.keys, vec!["l".to_string(), "8".to_string(), "8".to_string()]);
    assert!(h.modifiers.ctrl && !h.modifiers.alt && !h.modifiers.meta && !h.modifiers.shift);
}

#[test]
fn canonical_text_round_trips() {
    for s in ["shift+r+meta", "alt + o + T", "control+L+ 8 + 8", "ctrl", " ", "a++b", "Space+x", "win+alt+shift+ctrl+q"] {
        let h = Hotkey::new(s);
        let again = Hotkey::new(&h.to_string());
        assert_eq!(again, h);
        assert_eq!(again.keys, h.keys);
        assert_eq!(again.modifiers, h.modifiers);
    }
}

#[test]
fn canonical_text_values() {
    assert_eq!(Hotkey::new("shift+r+meta").to_string(), "r+Meta+Shift");
    assert_eq!(Hotkey::new("Control+K").to_string(), "k+Ctrl");
    assert_eq!(Hotkey::new("ctrl").to_string(), "Ctrl");
    assert_eq!(Hotkey::new("alt+ctrl").to_string(), "Alt+Ctrl");
    assert_eq!(Hotkey::new(" ").to_string(), "spacebar");
    assert_eq!(Hotkey::new("a++b").to_string(), "a++b");
    assert_eq!(KeyboardModifiers { alt: true, ctrl: true, meta: false, shift: false }.to_string(), "+Alt+Ctrl");
    assert_eq!(KeyboardModifiers { alt: true, ctrl: true, meta: false, shift: true }.to_string(), "+Alt+Ctrl+Shift");
    assert_eq!(KeyboardModifiers::default().to_string(), "");
}

#[test]
fn from_str_never_fails_and_agrees_with_new() {
    for s in ["ctrl+k", "", "+", "a,b", "Space", "\u{b}ctrl"] {
        let parsed: Result<Hotkey, ()> = s.parse();
        assert!(parsed.is_ok());
        assert_eq!(parsed.unwrap(), Hotkey::new(s));
    }
}

#[test]
fn unicode_whitespace_is_trimmed() {
    assert_eq!(Hotkey::new("\u{b}ctrl+k"), Hotkey::new("ctrl+k"));
    assert_eq!(Hotkey::new("\u{a0}K\u{3000}").keys, vec!["k".to_string()]);
    assert_eq!(Hotkey::new("\tshift\n+a").modifiers, KeyboardModifiers { alt: false, ctrl: false, meta: false, shift: true });
}

#[test]
fn modifier_synonyms_are_equivalent() {
    let ctrl = Hotkey::new("ctrl+k");
    assert_eq!(Hotkey::new("control+k"), ctrl);
    assert_eq!(Hotkey::new("controlleft+k"), ctrl);
    assert_eq!(Hotkey::new("controlright+k"), ctrl);
    let meta = Hotkey::new("meta+k");
    for s in ["cmd+k", "command+k", "super+k", "win+k", "metaleft+k", "metaright+k"] {
        assert_eq!(Hotkey::new(s), meta);
    }
    let alt = Hotkey::new("alt+k");
    for s in ["option+k", "altleft+k", "altright+k"] {
        assert_eq!(Hotkey::new(s), alt);
    }
    let shift = Hotkey::new("shift+k");
    for s in ["shiftleft+k", "shiftright+k"] {
        assert_eq!(Hotkey::new(s), shift);
    }
    assert_ne!(ctrl, meta);
}

#[test]
fn case_does_not_matter() {
    assert_eq!(Hotkey::new("Control+K"), Hotkey::new("control+k"));
    assert_eq!(Hotkey::new("Control+K").keys, vec!["k".to_string()]);
    assert_eq!(Hotkey::new("SHIFT+ArrowUp").keys, vec!["arrowup".to_string()]);
}

#[test]
fn space_names_are_one_key() {
    let expected = vec!["spacebar".to_string()];
    assert_eq!(Hotkey::new(" ").keys, expected);
    assert_eq!(Hotkey::new("space").keys, expected);
    assert_eq!(Hotkey::new("Spacebar").keys, expected);
    assert_eq!(Hotkey::new("ctrl+ space ").keys, expected);
}

#[test]
fn unknown_tokens_are_keys() {
    let h = Hotkey::new("hyper+F13");
    assert_eq!(h.keys, vec!["hyper".to_string(), "f13".to_string()]);
    assert_eq!(h.modifiers, KeyboardModifiers::default());
    assert_eq!(Hotkey::new("a++b").keys, vec!["a".to_string(), "".to_string(), "b".to_string()]);
}

#[test]
fn equality_ignores_key_order_and_repeats() {
    assert_eq!(Hotkey::new("a+b"), Hotkey::new("b+a"));
    assert_eq!(Hotkey::new("a+a"), Hotkey::new("a"));
    assert_ne!(Hotkey::new("a+b"), Hotkey::new("a"));
    assert_ne!(Hotkey::new("ctrl+a"), Hotkey::new("a"));
}

#[test]
fn includes_key_looks_at_plain_keys() {
    let h = Hotkey::new("ctrl+k+j");
    assert!(h.includes_key(&"k".to_string()));
    assert!(h.includes_key(&"j".to_string()));
    assert!(!h.includes_key(&"ctrl".to_string()));
    assert!(!h.includes_key(&"x".to_string()));
}
