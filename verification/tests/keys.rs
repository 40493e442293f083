use wincrust::keys::{
    named, parse, parse_chord, Chord, VK_CONTROL, VK_END, VK_F1, VK_HOME, VK_LWIN, VK_MENU,
    VK_OEM_MINUS, VK_OEM_PLUS, VK_RETURN, VK_SHIFT,
};

fn key_of(s: &str) -> u16 {
    parse_chord(s).unwrap().key
}

#[test]
fn the_case_that_forced_a_sendkeys_fallback() {
    let c = parse_chord("Enter").unwrap();
    assert_eq!(c.key, VK_RETURN);
    assert!(!c.ctrl && !c.shift && !c.alt && !c.win);
}

#[test]
fn modifiers_combine() {
    let c = parse_chord("Ctrl+Shift+P").unwrap();
    assert!(c.ctrl && c.shift);
    assert!(!c.alt && !c.win);
    assert_eq!(c.key, b'P' as u16);
}

#[test]
fn names_are_case_insensitive_and_aliased() {
    for s in ["Enter", "enter", "RETURN", "Return"] {
        assert_eq!(key_of(s), VK_RETURN, "{s}");
    }
    assert_eq!(key_of("esc"), key_of("Escape"));
    assert_eq!(key_of("pgdn"), key_of("PageDown"));
    assert_eq!(key_of("del"), key_of("Delete"));
}

#[test]
fn function_keys_are_contiguous() {
    assert_eq!(key_of("F1"), VK_F1);
    assert_eq!(key_of("F5"), VK_F1 + 4);
    assert_eq!(key_of("F24"), VK_F1 + 23);
    assert!(parse_chord("F25").is_err());
    assert!(parse_chord("F0").is_err());
}

#[test]
fn single_characters_map_to_their_own_code() {
    assert_eq!(key_of("a"), b'A' as u16);
    assert_eq!(key_of("A"), b'A' as u16);
    assert_eq!(key_of("7"), b'7' as u16);
}

#[test]
fn a_trailing_plus_is_the_plus_key_not_a_dangling_separator() {
    let c = parse_chord("Ctrl++").expect("Ctrl++ must parse");
    assert!(c.ctrl);
    assert_eq!(c.key, VK_OEM_PLUS);

    let bare = parse_chord("+").expect("+ alone must parse");
    assert!(!bare.ctrl && !bare.shift && !bare.alt && !bare.win);
    assert_eq!(bare.key, VK_OEM_PLUS);

    assert_eq!(parse_chord("Ctrl+-").unwrap().key, VK_OEM_MINUS);
    assert_eq!(key_of("plus"), VK_OEM_PLUS);

    assert!(parse_chord("Ctrl+").is_err());
}

#[test]
fn an_empty_segment_inside_the_modifiers_is_still_refused() {
    assert!(parse_chord("Ctrl++Shift").is_err());
}

#[test]
fn sequences_preserve_order() {
    let seq = parse("Home Shift+End Ctrl+C").unwrap();
    assert_eq!(seq.len(), 3);
    assert_eq!(seq[0].key, VK_HOME);
    assert!(seq[1].shift && seq[1].key == VK_END);
    assert!(seq[2].ctrl && seq[2].key == b'C' as u16);
}

#[test]
fn path_punctuation_is_refused_but_points_somewhere() {
    for bad in [":", "\\", "/", "."] {
        let e = parse_chord(bad)
            .expect_err("{bad:?} must not parse")
            .message();
        assert!(e.contains("type_keys"), "{bad:?} said: {e}");
    }
    assert!(parse_chord("Ctrl+:").is_err());
}

#[test]
fn nonsense_is_refused_rather_than_guessed() {
    for bad in ["", "   ", "Ctrl+", "Ctrl+Nope", "Hyper+A", "notakey"] {
        assert!(parse(bad).is_err(), "{bad:?} should not parse");
    }
}

#[test]
fn a_run_of_keystrokes_is_capped() {
    let long = "a ".repeat(40);
    assert!(parse(&long).is_err());
}

#[test]
fn modifiers_are_reported_for_press_and_release() {
    let c = parse_chord("Ctrl+Alt+Shift+Win+S").unwrap();
    let m = c.modifiers();
    assert_eq!(m.len(), 4);
    assert_eq!(m[0], VK_CONTROL, "ctrl must be outermost");
}

#[test]
fn modifiers_come_in_a_fixed_order() {
    let c = parse_chord("win + shift+OPT+control+x").unwrap();
    assert_eq!(c.modifiers(), vec![VK_CONTROL, VK_MENU, VK_SHIFT, VK_LWIN]);
    let none = Chord {
        ctrl: false,
        shift: false,
        alt: false,
        win: false,
        key: 65,
    };
    assert_eq!(none.modifiers(), Vec::<u16>::new());
}

#[test]
fn every_refusal_has_its_words() {
    let say = |s: &str| parse_chord(s).unwrap_err().message();
    assert_eq!(say("  "), "empty key specification");
    assert_eq!(say("Ctrl++Shift"), "empty modifier in \"Ctrl++Shift\"");
    assert_eq!(say("Hyper+A"), "unknown modifier \"hyper\" in \"Hyper+A\"");
    assert_eq!(say("Ctrl+"), "\"Ctrl+\" has modifiers but no key");
    assert_eq!(say(" Ctrl+Nope "), "unknown key \"Nope\" in \"Ctrl+Nope\"");
    assert_eq!(
        say(":"),
        "\":\" has no virtual-key code that is the same on every keyboard layout, so `key` will not guess one. Use action 'type_keys' to send it as text."
    );
    assert_eq!(parse(" \t").unwrap_err().message(), "no keys in \" \\t\"");
    assert_eq!(
        parse(&"a ".repeat(40)).unwrap_err().message(),
        "40 keystrokes in one call; 32 is the limit"
    );
}

#[test]
fn thirty_two_keystrokes_still_parse() {
    assert_eq!(parse(&"a ".repeat(32)).unwrap().len(), 32);
    assert!(parse(&"a ".repeat(33)).is_err());
}

#[test]
fn capitals_make_no_difference_to_chords() {
    for s in ["Ctrl+Shift+P", "PGUP", "cMd+F12", "ALT++", "Z"] {
        assert_eq!(
            parse_chord(s).unwrap(),
            parse_chord(&s.to_ascii_lowercase()).unwrap(),
            "{s}"
        );
    }
}

#[test]
fn names_that_are_not_keys_have_no_code() {
    assert_eq!(named("F24"), Some(VK_F1 + 23));
    assert_eq!(named("f007"), Some(VK_F1 + 6));
    assert_eq!(named("f"), None);
    assert_eq!(named("f999"), None);
    assert_eq!(named("a"), None);
    assert_eq!(named("-"), Some(VK_OEM_MINUS));
}

#[test]
fn modifiers_add_up_in_any_order() {
    for key in ["P", "Enter", "F5", "7", "+", "-"] {
        let bare = parse_chord(key).unwrap();
        let want = Chord {
            ctrl: true,
            shift: true,
            ..bare
        };
        for mods in ["Ctrl+Shift+", "shift+control+", "Shift+CTRL+Shift+Ctrl+"] {
            assert_eq!(parse_chord(&format!("{mods}{key}")).unwrap(), want);
        }
    }
    assert!(parse_chord("Ctrl+ +").is_err());
}
