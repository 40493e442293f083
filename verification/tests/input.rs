use wincrust::input::{
    check_sent, click_at, encode_text, key_strokes, text_units, to_normalized, unit_strokes, Batch,
    KeyStroke, MouseStep, UnitStroke, VirtualScreen, MAX_TEXT_UNITS,
};
use wincrust::keys::parse;

#[test]
fn maps_the_span_to_the_full_range() {
    assert_eq!(to_normalized(0, 0, 1920), 0);
    assert_eq!(to_normalized(1919, 0, 1920), 65535);
}

#[test]
fn handles_a_negative_virtual_origin() {
    assert_eq!(to_normalized(-1920, -1920, 3840), 0);
    assert_eq!(to_normalized(1919, -1920, 3840), 65535);
    let mid = to_normalized(0, -1920, 3840);
    assert!((32750..=32790).contains(&mid), "midpoint was {mid}");
}

#[test]
fn handles_a_negative_origin_on_the_y_axis() {
    assert_eq!(to_normalized(-1080, -1080, 2160), 0);
    assert_eq!(to_normalized(1079, -1080, 2160), 65535);
}

#[test]
fn survives_a_one_pixel_span() {
    assert_eq!(to_normalized(0, 0, 1), 0);
    assert_eq!(to_normalized(0, 0, 0), 0);
}

#[test]
fn punctuation_that_no_vk_code_could_carry() {
    for s in [":", "\\", r"C:\Users\nhatv\.local\bin\uv.exe"] {
        let u = text_units(s).unwrap_or_else(|e| panic!("{s:?} must encode: {}", e.message()));
        assert_eq!(u.len(), s.encode_utf16().count(), "{s:?}");
    }
    assert_eq!(text_units(":").unwrap(), vec![b':' as u16]);
    assert_eq!(text_units("\\").unwrap(), vec![b'\\' as u16]);
}

#[test]
fn an_astral_character_becomes_a_surrogate_pair() {
    let u = text_units("\u{1F600}").unwrap();
    assert_eq!(u.len(), 2, "one char, but two code units");
    assert!((0xD800..0xDC00).contains(&u[0]), "high surrogate first");
    assert!((0xDC00..0xE000).contains(&u[1]), "low surrogate second");

    let mixed = text_units("a\u{1F600}b").unwrap();
    assert_eq!(mixed.len(), 4);
    assert_eq!(mixed[0], b'a' as u16);
    assert_eq!(mixed[3], b'b' as u16);
}

#[test]
fn a_run_of_text_is_capped() {
    let long = "a".repeat(MAX_TEXT_UNITS + 1);
    assert!(text_units(&long).is_err());
    assert!(text_units(&"a".repeat(MAX_TEXT_UNITS)).is_ok());
}

#[test]
fn empty_text_is_refused_rather_than_sent_as_nothing() {
    assert!(text_units("").is_err());
}

#[test]
fn is_monotonic_across_the_span() {
    let mut last = i32::MIN;
    for x in (-1920..1920).step_by(97) {
        let n = to_normalized(x, -1920, 3840);
        assert!(n > last, "not monotonic at {x}");
        last = n;
    }
}

#[test]
fn normalising_rounds_as_floating_point_does() {
    for span in [0, 1, 2, 3, 7, 100, 1080, 1920, 3840, 65536, 100_000] {
        for v in [-70_000, -1921, -1, 0, 1, 2, 3, 6, 50, 959, 1919, 3839, 65_535, 99_999] {
            for origin in [-1920, 0, 17] {
                let want =
                    (((v - origin) as f64) * 65535.0 / ((span - 1).max(1) as f64)).round() as i32;
                assert_eq!(to_normalized(v, origin, span), want, "{v} {origin} {span}");
            }
        }
    }
}

#[test]
fn no_two_points_of_a_screen_fall_together() {
    let mut seen: Vec<i32> = (0..3840).map(|x| to_normalized(x, 0, 3840)).collect();
    seen.dedup();
    assert_eq!(seen.len(), 3840);
}

#[test]
fn code_units_are_those_of_utf16() {
    for s in ["", "plain", "\u{d7ff}\u{e000}\u{ffff}", "a\u{10000}\u{10ffff}z", "日本語"] {
        let want: Vec<u16> = s.encode_utf16().collect();
        assert_eq!(encode_text(s), want);
        assert_eq!(String::from_utf16(&encode_text(s)).unwrap(), s);
    }
}

#[test]
fn refused_text_says_why() {
    assert_eq!(text_units("").unwrap_err().message(), "no text to send");
    assert_eq!(
        text_units(&"\u{1F600}".repeat(1025)).unwrap_err().message(),
        "2050 UTF-16 code units in one call; 2048 is the limit"
    );
}

#[test]
fn a_click_is_one_batch_at_one_point() {
    let screen = VirtualScreen {
        x: -1920,
        y: 0,
        w: 3840,
        h: 1080,
    };
    let events = click_at(-1920, 1079, screen).unwrap();
    let steps: Vec<MouseStep> = events.iter().map(|e| e.step).collect();
    assert_eq!(
        steps,
        vec![MouseStep::Move, MouseStep::Press, MouseStep::Release]
    );
    assert!(events.iter().all(|e| e.nx == 0 && e.ny == 65535));
}

#[test]
fn a_click_off_the_desktop_is_refused() {
    let screen = VirtualScreen {
        x: -10,
        y: 5,
        w: 20,
        h: 30,
    };
    assert!(click_at(9, 34, screen).is_ok());
    assert_eq!(
        click_at(10, 5, screen).unwrap_err().message(),
        "(10,5) is outside the virtual desktop (-10,5 20x30)"
    );
    let none = VirtualScreen {
        x: 0,
        y: 0,
        w: 0,
        h: -1,
    };
    assert_eq!(
        click_at(0, 0, none).unwrap_err().message(),
        "virtual screen is 0x-1 - no desktop to click on (session 0?)"
    );
}

#[test]
fn a_batch_that_was_cut_says_so() {
    assert!(check_sent(Batch::Mouse, 3, 3).is_ok());
    assert_eq!(
        check_sent(Batch::Mouse, 1, 3).unwrap_err().message(),
        "SendInput accepted 1 of 3 events - blocked by UIPI?"
    );
    assert_eq!(
        check_sent(Batch::Keys, 0, 2).unwrap_err().message(),
        "SendInput accepted 0 of 2 keyboard events"
    );
    assert_eq!(
        check_sent(Batch::Text, 5, 6).unwrap_err().message(),
        "SendInput accepted 5 of 6 keyboard events - blocked by UIPI? A window running elevated cannot be typed into from this process."
    );
}

#[test]
fn modifiers_let_go_in_reverse_order() {
    let strokes = key_strokes(&parse("Ctrl+Shift+P Enter").unwrap());
    let keys: Vec<(u16, bool)> = strokes.iter().map(|s: &KeyStroke| (s.key, s.up)).collect();
    assert_eq!(
        keys,
        vec![
            (0x11, false),
            (0x10, false),
            (0x50, false),
            (0x50, true),
            (0x10, true),
            (0x11, true),
            (0x0d, false),
            (0x0d, true),
        ]
    );
}

#[test]
fn no_stroke_leaves_a_key_down() {
    let strokes = key_strokes(&parse("Ctrl+Alt+Del Win+Shift+S F5 a").unwrap());
    let mut down: Vec<u16> = Vec::new();
    for s in &strokes {
        if s.up {
            assert_eq!(down.pop(), Some(s.key));
        } else {
            down.push(s.key);
        }
    }
    assert!(down.is_empty());
}

#[test]
fn each_code_unit_goes_down_and_up() {
    let strokes = unit_strokes(&vec![7u16, 9]);
    let want = vec![
        UnitStroke { unit: 7, up: false },
        UnitStroke { unit: 7, up: true },
        UnitStroke { unit: 9, up: false },
        UnitStroke { unit: 9, up: true },
    ];
    assert_eq!(strokes, want);
}
