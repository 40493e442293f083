use wincrust::capture::Share;
use wincrust::dpi::{awareness, displays, Awareness, Display, Monitor};

#[test]
fn a_display_left_of_the_primary_keeps_its_negative_edge() {
    let got = displays(&vec![
        Monitor {
            left: 0,
            top: 0,
            right: 1920,
            bottom: 1080,
            flags: 1,
            dpi: 96,
        },
        Monitor {
            left: -2560,
            top: -200,
            right: 0,
            bottom: 1240,
            flags: 2,
            dpi: 144,
        },
    ]);
    assert_eq!(
        got[0],
        Display {
            index: 0,
            x: 0,
            y: 0,
            width: 1920,
            height: 1080,
            primary: true,
            dpi: 96,
            scale: Share {
                part: 96,
                whole: 96
            },
        }
    );
    assert_eq!(
        got[1],
        Display {
            index: 1,
            x: -2560,
            y: -200,
            width: 2560,
            height: 1440,
            primary: false,
            dpi: 144,
            scale: Share {
                part: 144,
                whole: 96
            },
        }
    );
    assert_eq!(got[1].scale.part as f64 / got[1].scale.whole as f64, 1.5);
}

#[test]
fn awareness_is_reported_in_words() {
    assert_eq!(awareness(Awareness::PerMonitor), "per-monitor-aware");
    assert_eq!(
        awareness(Awareness::System),
        "system-aware (coordinates wrong off the primary display)"
    );
    assert!(awareness(Awareness::Unaware).starts_with("UNAWARE (coordinates virtualised - every"));
    assert_eq!(awareness(Awareness::Other), "unknown");
    assert_eq!(
        awareness(Awareness::Points),
        "desktop-points (capture normalized to one pixel per point)"
    );
    assert_eq!(awareness(Awareness::Absent), "n/a");
}
