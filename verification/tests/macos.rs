use wincrust::capture::Frame;
use wincrust::keys::{VK_F1, VK_RETURN};
use wincrust::macos::capture::{
    check_access, check_displays, compose, display_frame, frame_of_display, ComposeError,
};
use wincrust::macos::input::{
    code, key_events, parse_scroll, prepare, text_events, us_layout, validate_text,
    LINES_PER_NOTCH,
};

#[test]
fn displays_left_and_above_keep_origin_and_rows() {
    let f = compose(vec![
        Frame {
            w: 1,
            h: 2,
            origin: (-1, -1),
            rgb: vec![1, 2, 3, 4, 5, 6],
        },
        Frame {
            w: 1,
            h: 1,
            origin: (0, 0),
            rgb: vec![7, 8, 9],
        },
    ])
    .unwrap();
    assert_eq!((f.w, f.h, f.origin), (2, 2, (-1, -1)));
    assert_eq!(f.rgb, vec![1, 2, 3, 0, 0, 0, 4, 5, 6, 7, 8, 9]);
}

#[test]
fn native_keys_are_not_windows_codes() {
    assert_eq!(code(VK_RETURN), Some(36));
    assert_eq!(code(b'S' as u16), Some(1));
    assert_eq!(code(VK_F1 + 23), None);
}

#[test]
fn text_limits_count_surrogates() {
    assert!(validate_text(&"🦀".repeat(1024)).is_ok());
    assert!(validate_text(&"🦀".repeat(1025)).is_err());
    assert!(validate_text("a\0b").is_err());
}

#[test]
fn empty_text_is_refused_like_windows() {
    assert!(validate_text("").is_err());
}

#[test]
fn a_bare_direction_is_one_notch() {
    let s = parse_scroll("down").unwrap();
    assert_eq!((s.vertical, s.horizontal), (-LINES_PER_NOTCH, 0));
    assert_eq!(parse_scroll("up").unwrap().vertical, LINES_PER_NOTCH);
}

#[test]
fn down_and_up_have_opposite_signs() {
    assert!(parse_scroll("down").unwrap().vertical < 0);
    assert!(parse_scroll("up").unwrap().vertical > 0);
    assert!(parse_scroll("right").unwrap().horizontal < 0);
    assert!(parse_scroll("left").unwrap().horizontal > 0);
}

#[test]
fn a_count_multiplies_notches() {
    assert_eq!(
        parse_scroll("down 4").unwrap().vertical,
        -4 * LINES_PER_NOTCH
    );
}

#[test]
fn it_refuses_what_it_cannot_mean() {
    for bad in [
        "", "sideways", "down 0", "down 101", "down -2", "down two", "down 3 4",
    ] {
        assert!(parse_scroll(bad).is_err(), "{bad:?} should be refused");
    }
}

#[test]
fn direction_is_case_insensitive() {
    assert_eq!(parse_scroll("DOWN").unwrap().vertical, -LINES_PER_NOTCH);
}

#[test]
fn every_scroll_refusal_has_its_words() {
    let say = |s: &str| parse_scroll(s).unwrap_err().message();
    assert_eq!(
        say(" "),
        "scroll needs a direction: up, down, left or right"
    );
    assert_eq!(say("down two"), "scroll count \"two\" is not a number");
    assert_eq!(
        say("down 3 4"),
        "scroll takes a direction and an optional count, e.g. \"down 3\""
    );
    assert_eq!(say("up 101"), "scroll count must be between 1 and 100");
    assert_eq!(
        say("Sideways"),
        "unknown scroll direction \"sideways\": use up, down, left or right"
    );
    assert_eq!(say("down 99999999999"), "scroll count \"99999999999\" is not a number");
    assert_eq!(parse_scroll("left 100").unwrap().horizontal, 300);
}

#[test]
fn no_two_keys_share_a_native_code() {
    let mut codes: Vec<u16> = (0..=u16::MAX).filter_map(code).collect();
    let n = codes.len();
    codes.sort();
    codes.dedup();
    assert_eq!(codes.len(), n);
    assert_eq!(n, 16 + 26 + 10 + 20);
}

#[test]
fn shortcuts_need_a_layout_they_know() {
    assert!(us_layout("com.apple.keylayout.US"));
    assert!(us_layout("com.apple.keylayout.ABC"));
    assert!(!us_layout("com.apple.keylayout.French"));
    assert!(prepare("Enter F5", false).is_ok());
    assert_eq!(
        prepare("Cmd+S", false).unwrap_err().message(),
        "Alphanumeric shortcuts currently require the US or ABC keyboard layout. Unicode type_keys is layout independent."
    );
    assert_eq!(
        prepare("F24", true).unwrap_err().message(),
        "key unsupported on macOS"
    );
    assert_eq!(
        prepare("Cmd+", true).unwrap_err().message(),
        "\"Cmd+\" has modifiers but no key"
    );
}

#[test]
fn prepared_keys_carry_their_modifiers() {
    let keys = prepare("Cmd+Shift+S Ctrl+Alt++", true).unwrap();
    assert_eq!((keys[0].code, keys[1].code), (1, 24));
    assert!(keys[0].flags.command && keys[0].flags.shift && !keys[0].flags.control);
    let plus = keys[1].flags;
    assert!(plus.control && plus.alternate && plus.shift && !plus.command);
    let events = key_events(&keys);
    let seen: Vec<(u16, bool)> = events.iter().map(|e| (e.key.code, e.down)).collect();
    assert_eq!(seen, vec![(1, true), (1, false), (24, true), (24, false)]);
}

#[test]
fn a_surrogate_pair_travels_in_one_event() {
    let events = text_events("a\u{1F600}").unwrap();
    let units: Vec<(Vec<u16>, bool)> = events.iter().map(|e| (e.units.clone(), e.down)).collect();
    assert_eq!(
        units,
        vec![
            (vec![97], true),
            (vec![97], false),
            (vec![0xd83d, 0xde00], true),
            (vec![0xd83d, 0xde00], false),
        ]
    );
    assert_eq!(
        text_events("a\0").unwrap_err().message(),
        "NUL is not valid keyboard text"
    );
    assert_eq!(
        text_events("").unwrap_err().message(),
        "no text to send"
    );
    assert_eq!(
        text_events(&"x".repeat(2049)).unwrap_err().message(),
        "text exceeds input limit"
    );
}

fn dot(origin: (i32, i32), v: u8) -> Frame {
    Frame {
        w: 1,
        h: 1,
        origin,
        rgb: vec![v, v, v],
    }
}

#[test]
fn the_later_display_is_seen_where_two_overlap() {
    let f = compose(vec![dot((0, 0), 5), dot((0, 0), 9)]).unwrap();
    assert_eq!(f.rgb, vec![9, 9, 9]);
}

#[test]
fn a_desktop_has_a_largest_size() {
    assert_eq!(
        compose(vec![]).unwrap_err().message(),
        "no captured displays"
    );
    assert_eq!(
        compose(vec![dot((0, 0), 1), dot((64_000_000, 0), 1)]).unwrap_err(),
        ComposeError::TooLarge
    );
    assert_eq!(
        ComposeError::TooLarge.message(),
        "desktop exceeds 64 megapixel capture limit"
    );
    let far = compose(vec![dot((i32::MIN, 0), 1), dot((i32::MAX, 0), 1)]).unwrap_err();
    assert_eq!(far, ComposeError::TooWide);
    assert_eq!(
        far.message(),
        u32::try_from(1i64 << 32).unwrap_err().to_string()
    );
    let high = compose(vec![dot((0, i32::MIN), 1), dot((0, i32::MAX), 1)]).unwrap_err();
    assert_eq!(high, ComposeError::TooHigh);
}

#[test]
fn capture_is_refused_for_a_reason() {
    assert!(check_access(true, true).is_ok());
    assert_eq!(
        check_access(false, false).unwrap_err().message(),
        Some("Screen capture requires macOS 14 or later")
    );
    assert!(check_access(true, false)
        .unwrap_err()
        .message()
        .unwrap()
        .starts_with("Screen Recording permission missing."));
    assert!(check_displays(1).is_ok() && check_displays(32).is_ok());
    for n in [0, 33] {
        assert_eq!(
            check_displays(n).unwrap_err().message(),
            Some("no usable displays or display count exceeds limit")
        );
    }
}

#[test]
fn a_picture_of_another_size_is_refused() {
    let f = display_frame((1, 2, vec![1, 2, 3, 4, 5, 6]), 1, 2, (-4, 4)).unwrap();
    assert_eq!((f.w, f.h, f.origin), (1, 2, (-4, 4)));
    assert_eq!(f.rgb, vec![1, 2, 3, 4, 5, 6]);
    let e = display_frame((1, 2, vec![0; 6]), 2, 2, (0, 0)).unwrap_err();
    assert_eq!(e.message(), Some("unexpected capture dimensions"));
    assert!(frame_of_display(b"nothing", 1, 1, (0, 0))
        .unwrap_err()
        .message()
        .is_none());
}

#[test]
fn a_picture_of_a_display_becomes_its_frame() {
    let mut png: Vec<u8> = Vec::new();
    image::ImageEncoder::write_image(
        image::codecs::png::PngEncoder::new(&mut png),
        &[9, 8, 7, 6, 5, 4],
        2,
        1,
        image::ExtendedColorType::Rgb8,
    )
    .unwrap();
    let f = frame_of_display(&png, 2, 1, (3, -3)).unwrap();
    assert_eq!((f.w, f.h, f.origin), (2, 1, (3, -3)));
    assert_eq!(f.rgb, vec![9, 8, 7, 6, 5, 4]);
}
