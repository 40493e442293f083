use wincrust::capture::{
    capture_window, changed_box, check_screen, check_window, compare_frames, crop, crop_frame,
    encode_png, encode_png_scaled, frame_from_png, grab, gray_histogram, observe_bytes,
    observe_frame, preprocess, stretch, EncodeError, Frame, GrabError, Look, Note, Observation,
    Prep, Scan, Share,
};
use wincrust::capture::grab::{rgb_of, Surface};
use wincrust::uia::Bounds;

fn frame(w: u32, h: u32, fill: u8) -> Frame {
    frame_at(w, h, fill, (0, 0))
}

fn frame_at(w: u32, h: u32, fill: u8, origin: (i32, i32)) -> Frame {
    Frame {
        w,
        h,
        origin,
        rgb: vec![fill; (w as usize) * (h as usize) * 3],
    }
}

fn set(f: &mut Frame, x: u32, y: u32, v: u8) {
    let i = ((y as usize) * (f.w as usize) + x as usize) * 3;
    f.rgb[i] = v;
    f.rgb[i + 1] = v;
    f.rgb[i + 2] = v;
}

fn ratio(s: Share) -> f64 {
    s.part as f64 / s.whole as f64
}

fn noise(w: u32, h: u32) -> Frame {
    let mut f = frame(w, h, 0);
    let mut x: u32 = 12345;
    for b in f.rgb.iter_mut() {
        x = x.wrapping_mul(1664525).wrapping_add(1013904223);
        *b = (x >> 24) as u8;
    }
    f
}

#[test]
fn identical_frames_report_no_change() {
    assert!(changed_box(&frame(8, 8, 10), &frame(8, 8, 10), 12).is_none());
}

#[test]
fn sub_tolerance_change_is_not_a_change() {
    let a = frame(8, 8, 10);
    let mut b = frame(8, 8, 10);
    set(&mut b, 3, 3, 13);
    assert!(changed_box(&a, &b, 12).is_none());
}

#[test]
fn one_changed_pixel_yields_a_tight_box() {
    let a = frame(8, 8, 0);
    let mut b = frame(8, 8, 0);
    set(&mut b, 5, 2, 255);
    let (x, y, w, h, _, n) = changed_box(&a, &b, 12).unwrap();
    assert_eq!((x, y, w, h), (5, 2, 1, 1));
    assert_eq!(n, 1);
}

#[test]
fn scattered_changes_produce_a_hull_far_larger_than_the_change() {
    let a = frame(100, 100, 0);
    let mut b = frame(100, 100, 0);
    set(&mut b, 1, 1, 255);
    set(&mut b, 98, 98, 255);
    let (x, y, w, h, frac, n) = changed_box(&a, &b, 12).unwrap();
    assert_eq!((x, y, w, h), (1, 1, 98, 98));
    assert_eq!(n, 2);
    let frac = ratio(frac);
    assert!(frac < 0.001, "frac was {frac}");
    let hull = (w as u64) * (h as u64);
    assert!(
        hull > n * 25,
        "hull {hull} should dwarf {n} changed pixels - this is the withhold trigger"
    );
}

#[test]
fn a_resize_counts_as_a_full_change() {
    let (x, y, w, h, frac, _) = changed_box(&frame(8, 8, 0), &frame(16, 16, 0), 12).unwrap();
    assert_eq!((x, y, w, h), (0, 0, 16, 16));
    assert_eq!(ratio(frac), 1.0);
}

#[test]
fn crop_extracts_the_requested_region() {
    let mut f = frame(10, 10, 0);
    set(&mut f, 4, 4, 200);
    let c = crop(&f, 4, 4, 2, 2);
    assert_eq!((c.w, c.h), (2, 2));
    assert_eq!(c.rgb[0], 200);
    assert_eq!(c.rgb.len(), 2 * 2 * 3);
}

#[test]
fn crop_carries_the_screen_origin() {
    let f = frame_at(100, 100, 0, (-1920, -200));
    let c = crop(&f, 10, 20, 5, 5);
    assert_eq!(c.origin, (-1910, -180));
}

#[test]
fn crop_clamps_at_the_frame_edge() {
    let f = frame(10, 10, 0);
    let c = crop(&f, 8, 8, 4, 4);
    assert!(c.rgb.len() <= 4 * 4 * 3);
}

#[test]
fn a_clamped_crop_keeps_what_the_frame_has() {
    let f = noise(5, 4);
    let c = crop_frame(&f, 3, 2, 9, 9);
    assert_eq!((c.w, c.h), (9, 9));
    let mut want = Vec::new();
    for y in 2..4usize {
        for x in 3..5usize {
            want.extend_from_slice(&f.rgb[(y * 5 + x) * 3..(y * 5 + x) * 3 + 3]);
        }
    }
    assert_eq!(c.rgb, want);
    assert!(crop(&f, 0, 4, 2, 2).rgb.is_empty());
}

#[test]
fn the_tolerance_is_a_sum_over_the_channels() {
    let a = frame(2, 1, 100);
    let mut b = frame(2, 1, 100);
    b.rgb[3] = 104;
    b.rgb[4] = 96;
    b.rgb[5] = 104;
    assert!(changed_box(&a, &b, 12).is_none());
    b.rgb[5] = 105;
    assert_eq!(
        changed_box(&a, &b, 12),
        Some((1, 0, 1, 1, Share { part: 1, whole: 2 }, 1))
    );
}

#[test]
fn it_makes_no_difference_which_frame_came_first() {
    let a = noise(12, 9);
    let mut b = noise(12, 9);
    set(&mut b, 2, 7, 0);
    set(&mut b, 9, 1, 255);
    assert_eq!(changed_box(&a, &b, 12), changed_box(&b, &a, 12));
    assert!(changed_box(&a, &b, 0).unwrap().5 >= changed_box(&a, &b, 200).map_or(0, |r| r.5));
}

#[test]
fn a_comparison_speaks_in_screen_coordinates() {
    let a = frame_at(8, 8, 0, (-100, 50));
    let mut b = frame_at(8, 8, 0, (-100, 50));
    set(&mut b, 3, 4, 255);
    set(&mut b, 5, 4, 255);
    let c = compare_frames(&a, &b).unwrap();
    assert_eq!((c.x, c.y, c.w, c.h), (-97, 54, 3, 1));
    assert_eq!(c.pixels, 2);
    assert_eq!(c.fraction, Share { part: 2, whole: 64 });
    assert!(compare_frames(&a, &a).is_none());
}

#[test]
fn a_png_holds_the_pixels_of_the_frame() {
    let f = noise(7, 5);
    let (png, w, h, scale) = encode_png(&f, 0, 0).unwrap();
    assert_eq!((w, h), (7, 5));
    assert_eq!(ratio(scale), 1.0);
    assert_ne!(png, f.rgb);
    let back = image::load_from_memory(&png).unwrap().to_rgb8();
    assert_eq!(back.into_raw(), f.rgb);
    let read = frame_from_png(&png).unwrap();
    assert_eq!((read.w, read.h, read.origin), (7, 5, (0, 0)));
    assert_eq!(read.rgb, f.rgb);
}

#[test]
fn a_wide_frame_is_shrunk() {
    let f = noise(40, 20);
    let (png, w, h, scale) = encode_png(&f, 10, 5).unwrap();
    assert_eq!((w, h), (10, 5));
    assert_eq!(ratio(scale), 0.25);
    let img = image::RgbImage::from_raw(40, 20, f.rgb.clone()).unwrap();
    let want = image::imageops::resize(&img, 10, 5, image::imageops::FilterType::Triangle);
    assert_eq!(
        image::load_from_memory(&png).unwrap().to_rgb8().into_raw(),
        want.into_raw()
    );
    assert_eq!(encode_png(&f, 40, 20).unwrap().1, 40);
}

#[test]
fn a_short_buffer_is_refused() {
    let mut f = frame(4, 3, 0);
    f.rgb.pop();
    let e = encode_png(&f, 0, 0).unwrap_err();
    assert_eq!(
        e.message().as_deref(),
        Some("frame buffer size does not match 4x3")
    );
    assert!(matches!(
        encode_png_scaled(&f, None, Prep::Gray, 0).unwrap_err(),
        EncodeError::SizeMismatch { w: 4, h: 3 }
    ));
    assert!(gray_histogram(&f).is_err());
}

#[test]
fn a_file_that_is_no_image_is_refused() {
    let e = frame_from_png(b"not an image").unwrap_err();
    assert!(matches!(e, EncodeError::Image(_)));
    assert!(e.message().is_none());
}

#[test]
fn magnification_reports_the_scale_it_used() {
    let f = noise(5, 4);
    let (png, scale) = encode_png_scaled(&f, Some((8, 6)), Prep::Plain, 0).unwrap();
    assert_eq!(scale, Share { part: 8, whole: 5 });
    let img = image::load_from_memory(&png).unwrap().to_rgb8();
    assert_eq!((img.width(), img.height()), (8, 6));
    let src = image::RgbImage::from_raw(5, 4, f.rgb.clone()).unwrap();
    let want = image::imageops::resize(&src, 8, 6, image::imageops::FilterType::Lanczos3);
    assert_eq!(img.into_raw(), want.into_raw());
    let (_, one) = encode_png_scaled(&f, None, Prep::Plain, 0).unwrap();
    assert_eq!(ratio(one), 1.0);
}

#[test]
fn preparing_does_what_it_is_named_for() {
    let f = noise(9, 7);
    let img = image::RgbImage::from_raw(9, 7, f.rgb.clone()).unwrap();
    let gray = image::imageops::grayscale(&img).into_raw();
    let tripled = |g: &[u8]| -> Vec<u8> { g.iter().flat_map(|v| [*v, *v, *v]).collect() };
    assert_eq!(preprocess(&f.rgb, 9, 7, Prep::Plain, 0), f.rgb);
    assert_eq!(preprocess(&f.rgb, 9, 7, Prep::Gray, 0), tripled(&gray));
    let (lo, hi) = (*gray.iter().min().unwrap(), *gray.iter().max().unwrap());
    let span = hi.saturating_sub(lo).max(1) as f32;
    let want: Vec<u8> = gray
        .iter()
        .map(|v| ((v.saturating_sub(lo) as f32 / span) * 255.0) as u8)
        .collect();
    assert_eq!(preprocess(&f.rgb, 9, 7, Prep::Contrast, 0), tripled(&want));
    let want: Vec<u8> = gray.iter().map(|v| if *v > 90 { 255 } else { 0 }).collect();
    assert_eq!(preprocess(&f.rgb, 9, 7, Prep::Otsu, 90), tripled(&want));
    let sharp = preprocess(&f.rgb, 9, 7, Prep::Sharpen, 0);
    assert_eq!(sharp, image::imageops::unsharpen(&img, 1.0, 4).into_raw());
    assert_ne!(sharp, f.rgb);
}

#[test]
fn an_empty_side_has_no_luminance() {
    for (w, h) in [(0, 2), (0, 1), (0, 0), (2, 0), (0, u32::MAX), (u32::MAX, 0)] {
        let f = Frame {
            w,
            h,
            origin: (0, 0),
            rgb: vec![],
        };
        assert!(gray_histogram(&f).unwrap().iter().all(|n| *n == 0));
        for p in [Prep::Plain, Prep::Gray, Prep::Contrast, Prep::Otsu] {
            assert!(preprocess(&f.rgb, w, h, p, 90).is_empty());
            assert!(matches!(
                encode_png_scaled(&f, None, p, 90),
                Err(EncodeError::Image(_))
            ));
        }
    }
    assert!(preprocess(&vec![1, 2, 3], 0, 2, Prep::Gray, 0).is_empty());
}

#[test]
fn rescaling_agrees_with_single_precision() {
    for lo in 0..=255u8 {
        for hi in lo..=255u8 {
            let span = hi.saturating_sub(lo).max(1) as f32;
            for v in lo..=hi {
                let want = ((v.saturating_sub(lo) as f32 / span) * 255.0) as u8;
                assert_eq!(stretch(v, lo, hi), want, "{v} in {lo}..{hi}");
            }
        }
    }
}

#[test]
fn a_histogram_counts_every_pixel() {
    let mut f = frame(4, 4, 0);
    set(&mut f, 1, 1, 255);
    set(&mut f, 2, 1, 255);
    let hist = gray_histogram(&f).unwrap();
    assert_eq!(hist.len(), 256);
    assert_eq!((hist[0], hist[255]), (14, 2));
    assert_eq!(hist.iter().sum::<u32>(), 16);
}

#[test]
fn preparations_have_names() {
    for p in [
        Prep::Plain,
        Prep::Gray,
        Prep::Contrast,
        Prep::Otsu,
        Prep::Sharpen,
    ] {
        assert_eq!(Prep::from_name(p.name()), Ok(p));
        assert_eq!(p.name().parse::<Prep>(), Ok(p));
    }
    assert_eq!(Prep::Plain.name(), "none");
    assert_eq!(
        Prep::from_name("blur"),
        Err("unknown preprocess 'blur' (none|gray|contrast|otsu|sharpen)".to_string())
    );
}

#[test]
fn an_image_is_shown_whole_without_a_diff() {
    let mut last = None;
    match observe_frame(&mut last, frame(6, 6, 3), false) {
        Look::Show(p) => {
            assert_eq!((p.target.w, p.target.h), (6, 6));
            assert!(p.note.is_none() && p.changed_region.is_none());
        }
        Look::Told(_) => panic!("an image was asked for"),
    }
    assert!(last.is_none());
}

#[test]
fn a_first_diff_shows_the_full_frame() {
    let mut last = None;
    match observe_frame(&mut last, frame(6, 6, 3), true) {
        Look::Show(p) => {
            assert_eq!(p.note, Some(Note::First));
            assert_eq!(p.note.unwrap().text(""), "first observation - full frame");
            let (obs, png) = observe_bytes(&p, 0, 0).unwrap();
            assert_eq!((obs.width, obs.height, obs.png_bytes), (6, 6, png.len()));
            assert_eq!(obs.approx_tokens, 36 / 750);
            assert_eq!(obs.note, Some(Note::First));
        }
        Look::Told(_) => panic!("nothing to compare with"),
    }
    assert!(last.is_some());
}

#[test]
fn a_second_look_at_a_still_screen_sends_nothing() {
    let mut last = None;
    observe_frame(&mut last, noise(6, 6), true);
    match observe_frame(&mut last, noise(6, 6), true) {
        Look::Told(obs) => {
            assert_eq!(
                obs,
                Observation {
                    width: 0,
                    height: 0,
                    scale: Share { part: 1, whole: 1 },
                    png_bytes: 0,
                    approx_tokens: 0,
                    changed_fraction: Some(Share { part: 0, whole: 1 }),
                    changed_region: None,
                    note: Some(Note::Unchanged),
                }
            );
            assert_eq!(
                Note::Unchanged.text(""),
                "no change since last observation"
            );
        }
        Look::Show(_) => panic!("nothing moved"),
    }
}

#[test]
fn scattered_changes_are_told_and_not_shown() {
    let mut last = None;
    observe_frame(&mut last, frame_at(100, 100, 0, (-50, 7)), true);
    let mut b = frame_at(100, 100, 0, (-50, 7));
    set(&mut b, 1, 1, 255);
    set(&mut b, 98, 98, 255);
    match observe_frame(&mut last, b, true) {
        Look::Told(obs) => {
            assert_eq!(obs.changed_region, Some((-49, 8, 98, 98)));
            let share = obs.changed_fraction.unwrap();
            assert_eq!(ratio(share), 0.0002);
            let note = obs.note.unwrap();
            assert_eq!(
                note.text(&format!("{:.3}", ratio(share) * 100.0)),
                "2 scattered pixels changed (0.020%) - image withheld, the region hull is 4802x larger than the change itself"
            );
        }
        Look::Show(_) => panic!("the coordinates are the answer"),
    }
}

#[test]
fn a_compact_change_is_cut_out_and_shown() {
    let mut last = None;
    observe_frame(&mut last, frame_at(20, 20, 0, (5, -5)), true);
    let mut b = frame_at(20, 20, 0, (5, -5));
    set(&mut b, 4, 6, 200);
    set(&mut b, 5, 7, 100);
    match observe_frame(&mut last, b, true) {
        Look::Show(p) => {
            assert_eq!(p.changed_region, Some((9, 1, 2, 2)));
            assert_eq!(p.changed_fraction, Some(Share { part: 2, whole: 400 }));
            assert_eq!(p.target.origin, (9, 1));
            assert_eq!(
                p.target.rgb,
                vec![200, 200, 200, 0, 0, 0, 0, 0, 0, 100, 100, 100]
            );
        }
        Look::Told(_) => panic!("one pixel in two hundred is not scattered"),
    }
    assert_eq!(last.unwrap().rgb[(6 * 20 + 4) * 3], 200);
}

#[test]
fn a_scan_becomes_a_frame_at_its_place() {
    let area = Bounds {
        x: -3,
        y: 4,
        w: 2,
        h: 1,
    };
    let scan = Scan {
        rows: 1,
        bgra: vec![1, 2, 3, 0, 4, 5, 6, 255],
    };
    let f = grab(area, false, &scan).unwrap();
    assert_eq!((f.w, f.h, f.origin), (2, 1, (-3, 4)));
    assert_eq!(f.rgb, vec![3, 2, 1, 6, 5, 4]);
    let w = capture_window(9, true, false, area, true, &scan).unwrap();
    assert_eq!(w.rgb, f.rgb);
    assert_eq!(rgb_of(&vec![9, 8, 7, 6, 5]), vec![7, 8, 9]);
}

#[test]
fn a_capture_that_makes_no_sense_is_refused() {
    let area = |w: i32, h: i32| Bounds { x: 0, y: 0, w, h };
    let empty = Scan {
        rows: 0,
        bgra: vec![0; 4],
    };
    let say = |e: GrabError| e.message();
    assert_eq!(
        say(check_screen(area(0, 5), true).unwrap_err()),
        "virtual screen is 0x5 - almost certainly running in session 0, which has no desktop"
    );
    assert_eq!(
        say(check_screen(area(1, 1), true).unwrap_err()),
        "the session is locked - a capture here returns the lock screen, not the desktop. Unlock the machine, or expect UIA and OCR to see nothing."
    );
    assert_eq!(
        say(check_window(7, false, true, area(0, 0)).unwrap_err()),
        "window 7 no longer exists"
    );
    assert_eq!(
        check_window(7, true, true, area(0, 0)).unwrap_err(),
        GrabError::Locked
    );
    assert_eq!(
        say(check_window(-7, true, false, area(3, -1)).unwrap_err()),
        "window -7 has no area (3x-1)"
    );
    assert_eq!(
        say(capture_window(7, true, false, area(1, 1), false, &empty).unwrap_err()),
        "PrintWindow failed for 7 - the window may not support rendering on demand"
    );
    assert_eq!(
        say(capture_window(7, true, false, area(1, 1), true, &empty).unwrap_err()),
        "GetDIBits returned no scanlines"
    );
    assert_eq!(
        grab(area(1, 1), false, &empty).unwrap_err(),
        GrabError::NoRows
    );
    let lost = |surface: Surface| say(GrabError::NoSurface { surface });
    assert_eq!(lost(Surface::Screen), "GetDC failed");
    assert_eq!(
        lost(Surface::Memory),
        "CreateCompatibleDC failed - GDI handles may be exhausted"
    );
    assert_eq!(
        lost(Surface::Bitmap { w: 3, h: 2 }),
        "CreateCompatibleBitmap failed for 3x2 - GDI handles or memory may be exhausted"
    );
}
