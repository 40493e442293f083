use wincrust::capture::{Prep, Share};
use wincrust::ocr::{
    check_centres, check_language, collect_matches, find_matches, find_text, matches_text,
    part_by_forms, Sighting,
};
use wincrust::text::{keep_best, rank, tier_by_forms, tier_of, Hit, MatchTier};
use wincrust::uia::Bounds;

#[test]
fn each_tier_has_its_case() {
    assert_eq!(tier_of("Save", "Save"), Some(MatchTier::Exact));
    assert_eq!(tier_of("SAVE", "save"), Some(MatchTier::Case));
    assert_eq!(tier_of("ÀÉ", "àé"), Some(MatchTier::Case));
    assert_eq!(tier_of("T\u{1ec7}p", "Te\u{323}\u{302}p"), Some(MatchTier::Normalized));
    assert_eq!(tier_of("\u{ff21}\u{ff11}", "A1"), Some(MatchTier::Normalized));
    assert_eq!(tier_of("Save  as", " save as "), Some(MatchTier::Normalized));
    assert_eq!(tier_of("ファイル(F)", "ファイル"), Some(MatchTier::Affix));
    assert_eq!(tier_of("ファイル", "ファイル (F)"), Some(MatchTier::Affix));
    assert_eq!(tier_of("Save", "Open"), None);
    assert_eq!(tier_of("Save(A)", "Save(B)"), None);
}

#[test]
fn matching_does_not_care_who_asked() {
    for (a, b) in [("Save", "save"), ("ファイル(F)", "ファイル"), ("x", "y")] {
        assert_eq!(tier_of(a, b), tier_of(b, a));
    }
}

#[test]
fn forms_decide_the_tier() {
    assert_eq!(
        tier_by_forms("A", "B", ("x", "x"), ("p", "q")),
        Some(MatchTier::Case)
    );
    assert_eq!(
        tier_by_forms("A", "B", ("x", "y"), (" p  q ", "p q")),
        Some(MatchTier::Normalized)
    );
    assert_eq!(
        tier_by_forms("A", "B", ("x", "y"), ("p (1)", "p")),
        Some(MatchTier::Affix)
    );
    assert_eq!(tier_by_forms("A", "B", ("x", "y"), ("(1)", "")), None);
}

fn hit(place: usize, tier: MatchTier) -> Hit {
    Hit { place, tier }
}

#[test]
fn only_the_tightest_tier_is_kept() {
    let kept = keep_best(&vec![
        hit(0, MatchTier::Affix),
        hit(1, MatchTier::Case),
        hit(2, MatchTier::Normalized),
        hit(3, MatchTier::Case),
    ]);
    assert_eq!(kept, vec![hit(1, MatchTier::Case), hit(3, MatchTier::Case)]);
    assert!(keep_best(&vec![]).is_empty());
}

#[test]
fn looser_hits_make_no_difference() {
    let one = vec![hit(4, MatchTier::Exact)];
    let more = vec![
        hit(1, MatchTier::Affix),
        hit(4, MatchTier::Exact),
        hit(7, MatchTier::Case),
    ];
    assert_eq!(keep_best(&one), keep_best(&more));
}

#[test]
fn tiers_stand_in_order() {
    let ranks: Vec<u8> = [
        MatchTier::Exact,
        MatchTier::Case,
        MatchTier::Normalized,
        MatchTier::Affix,
        MatchTier::Glyphs,
    ]
    .into_iter()
    .map(rank)
    .collect();
    assert_eq!(ranks, vec![0, 1, 2, 3, 4]);
}

#[test]
fn a_part_of_a_line_is_found() {
    assert_eq!(matches_text("Open File…", "File"), Some(MatchTier::Exact));
    assert_eq!(matches_text("Open File…", "fILE"), Some(MatchTier::Case));
    assert_eq!(
        matches_text("Ｏｐｅｎ Ｆｉｌｅ", "open"),
        Some(MatchTier::Normalized)
    );
    assert_eq!(matches_text("T0TAL 5um", "total Sum"), Some(MatchTier::Glyphs));
    for query in ["Invoice", "invoice", "INVOICE"] {
        assert_eq!(matches_text("1nvoice", query), Some(MatchTier::Glyphs));
        assert_eq!(matches_text("1NV01CE", query), Some(MatchTier::Glyphs));
    }
    assert_eq!(matches_text("1nvoice", "invoke"), None);
    assert_eq!(matches_text("abc", "abcd"), None);
    assert_eq!(matches_text("abc", ""), Some(MatchTier::Exact));
}

#[test]
fn forms_decide_where_a_part_is_found() {
    let no = ("a", "b");
    assert_eq!(
        part_by_forms(no, ("xyz", "yz"), no, no),
        Some(MatchTier::Case)
    );
    assert_eq!(
        part_by_forms(no, no, ("aab", "ab"), no),
        Some(MatchTier::Normalized)
    );
    assert_eq!(
        part_by_forms(no, no, no, ("q", "q")),
        Some(MatchTier::Glyphs)
    );
    assert_eq!(part_by_forms(no, no, no, no), None);
}

fn line(text: Option<&str>, x: i32) -> Sighting {
    Sighting {
        text: text.map(|t| t.to_string()),
        bounds: Bounds {
            x,
            y: -10,
            w: 5,
            h: -3,
        },
    }
}

#[test]
fn matches_stop_at_the_limit() {
    let seen = vec![
        line(Some("one"), 0),
        line(None, 1),
        line(Some("two"), 2),
        line(Some("three"), 3),
    ];
    let all = find_matches(&seen, None, 10).unwrap();
    let texts: Vec<&str> = all.iter().map(|m| m.text.as_str()).collect();
    assert_eq!(texts, vec!["one", "two", "three"]);
    assert!(all.iter().all(|m| m.matched_by == MatchTier::Exact));
    assert_eq!(all[1].click_at, (4, -11));
    assert_eq!((all[1].x, all[1].y, all[1].w, all[1].h), (2, -10, 5, -3));
    assert_eq!(all[1].granularity, "line");
    assert_eq!(find_matches(&seen, None, 2).unwrap().len(), 2);
    assert!(find_matches(&seen, None, 0).unwrap().is_empty());
    let t = find_matches(&seen, Some("T"), 10).unwrap();
    assert_eq!(t.len(), 2);
    assert_eq!(t[0].matched_by, MatchTier::Case);
    let by_tier = collect_matches(
        &seen,
        &vec![None, Some(MatchTier::Exact), None, Some(MatchTier::Affix)],
        10,
    );
    assert_eq!(by_tier.len(), 1);
    assert_eq!(by_tier[0].text, "three");
}

#[test]
fn only_a_match_needs_a_centre() {
    let seen = vec![line(Some("near"), 0), line(Some("far"), i32::MAX)];
    assert_eq!(find_matches(&seen, Some("near"), 9).unwrap().len(), 1);
    assert_eq!(find_matches(&seen, None, 1).unwrap().len(), 1);
    assert!(find_matches(&seen, Some("far"), 9).is_none());
    assert!(find_matches(&seen, None, 9).is_none());
    let tiers = |far: Option<MatchTier>| vec![Some(MatchTier::Exact), far];
    assert!(check_centres(&seen, &tiers(None), 9));
    assert!(check_centres(&seen, &tiers(Some(MatchTier::Exact)), 1));
    assert!(!check_centres(&seen, &tiers(Some(MatchTier::Exact)), 2));
    let read = |query: &str| {
        find_text(
            &vec![],
            vec![],
            &seen,
            Some(query),
            9,
            Share { part: 1, whole: 1 },
            Prep::Plain,
        )
    };
    assert_eq!(read("near").unwrap().lines_seen, 2);
    assert!(read("far").is_none());
}

#[test]
fn a_reading_comes_with_its_circumstances() {
    let r = find_text(
        &vec!["en-US".to_string(), "de-DE".to_string()],
        vec!["en-US".to_string()],
        &vec![line(Some("Save"), 0), line(Some("Open"), 0)],
        Some("save"),
        9,
        Share { part: 3, whole: 2 },
        Prep::Plain,
    )
    .unwrap();
    assert_eq!(r.language, "en-US,de-DE");
    assert_eq!(r.available_languages, vec!["en-US".to_string()]);
    assert_eq!(r.lines_seen, 2);
    assert_eq!(r.matches.len(), 1);
    assert_eq!(r.scale, Share { part: 3, whole: 2 });
    assert_eq!(r.prep, "none");
}

#[test]
fn a_language_has_to_be_installed() {
    let have = vec!["en-US".to_string(), "ja".to_string()];
    assert!(check_language("EN-us", &have).is_ok());
    assert_eq!(
        check_language("de", &have).unwrap_err(),
        "unsupported OCR language de; available: en-US, ja"
    );
    assert_eq!(
        check_language("de", &vec![]).unwrap_err(),
        "unsupported OCR language de; available: "
    );
}
