use wincrust::text::{Hit, MatchTier};
use wincrust::uia::act::{
    authorise, check_entry, check_stop, confirm_focus, dispatched, find_hits, follow, pick_hit,
    refused, resolve, window_closed, Dispatch, Focus, Refusal, Status, Target,
};
use wincrust::uia::entity::{centre_fits, centre_of, entity, plain_role, Probe};
use wincrust::uia::snapshot::{entities_of, SnapshotStore, MAX_SNAPSHOTS};
use wincrust::uia::walk::{Node, Step, Truncation};
use wincrust::uia::windows::{SeenWindow, WindowError, WindowReading};
use wincrust::uia::{
    entity_matches, window_bounds, ActArgs, Bounds, DiscoverArgs, EngineConfig, Entity, Filter,
    Scope, Selector, Walk, WindowTable,
};

#[test]
fn empty_selector_is_recognised() {
    assert!(Selector::default().is_empty());
    assert!(!Selector {
        name: Some("Save".into()),
        ..Default::default()
    }
    .is_empty());
}

#[test]
fn describes_every_field_it_was_given() {
    let s = Selector {
        name: Some("Save".into()),
        automation_id: Some("btnSave".into()),
        control_type: Some("button".into()),
    };
    let d = s.describe();
    assert!(
        d.contains("Save") && d.contains("btnSave") && d.contains("button"),
        "{d}"
    );
    assert_eq!(
        d,
        "name=\"Save\" automation_id=\"btnSave\" control_type=\"button\""
    );
}

#[test]
fn describes_only_what_was_set() {
    let d = Selector {
        control_type: Some("button".into()),
        ..Default::default()
    }
    .describe();
    assert_eq!(d, "control_type=\"button\"");
}

fn ent(name: &str, ct: &str, aid: &str, enabled: bool) -> Entity {
    Entity {
        name: name.into(),
        control_type: ct.into(),
        automation_id: aid.into(),
        bounds: None,
        click_at: (0, 0),
        actions: vec![],
        enabled,
        path: vec![],
    }
}

#[test]
fn an_empty_selector_matches_anything() {
    let e = ent("Save", "button", "", true);
    assert_eq!(
        entity_matches(&e, &Selector::default()),
        Some(MatchTier::Exact)
    );
}

#[test]
fn it_uses_the_same_locale_ladder_as_act() {
    let e = ent("\u{30d5}\u{30a1}\u{30a4}\u{30eb}(F)", "menu item", "", true);
    let sel = Selector {
        name: Some("\u{30d5}\u{30a1}\u{30a4}\u{30eb}".into()),
        ..Default::default()
    };
    assert_eq!(entity_matches(&e, &sel), Some(MatchTier::Affix));
}

#[test]
fn automation_id_is_exact_and_case_sensitive() {
    let e = ent("Save", "button", "btnSave", true);
    let ok = Selector {
        automation_id: Some("btnSave".into()),
        ..Default::default()
    };
    let bad = Selector {
        automation_id: Some("btnsave".into()),
        ..Default::default()
    };
    assert!(entity_matches(&e, &ok).is_some());
    assert!(entity_matches(&e, &bad).is_none());
}

#[test]
fn every_named_field_must_match() {
    let e = ent("Save", "button", "btnSave", true);
    let wrong_type = Selector {
        name: Some("Save".into()),
        control_type: Some("menu item".into()),
        ..Default::default()
    };
    assert!(entity_matches(&e, &wrong_type).is_none());
}

#[test]
fn control_types_ignore_ascii_case() {
    let e = ent("Save", "Menu Item", "", true);
    let sel = Selector {
        control_type: Some("menu item".into()),
        ..Default::default()
    };
    assert_eq!(entity_matches(&e, &sel), Some(MatchTier::Exact));
}

#[test]
fn filters_have_names() {
    assert_eq!(Filter::from_name("all"), Ok(Filter::All));
    assert_eq!("actionable".parse::<Filter>(), Ok(Filter::Actionable));
    assert_eq!(
        "some".parse::<Filter>(),
        Err("unknown filter 'some' (actionable|all)".to_string())
    );
}

fn probe(role: &str, native: &[&str]) -> Probe {
    Probe {
        role: role.to_string(),
        native: native.iter().map(|a| a.to_string()).collect(),
        value_settable: false,
        expanded_settable: false,
        selected_settable: false,
        focused_settable: false,
        title: String::new(),
        description: String::new(),
        help: String::new(),
        value: String::new(),
        identifier: String::new(),
        bounds: None,
        enabled: None,
    }
}

#[test]
fn roles_have_plain_names() {
    for (role, name) in [
        ("AXButton", "button"),
        ("AXTextField", "edit"),
        ("AXTextArea", "edit"),
        ("AXComboBox", "edit"),
        ("AXCheckBox", "check box"),
        ("AXRadioButton", "radio button"),
        ("AXMenuItem", "menu item"),
        ("AXMenuBar", "menu bar"),
        ("AXWindow", "window"),
        ("AXTabGroup", "tab"),
        ("AXLink", "link"),
        ("AXRow", "row"),
        ("AXStaticText", "text"),
        ("AXSlider", "AXSlider"),
    ] {
        assert_eq!(plain_role(role), name);
    }
}

#[test]
fn an_entity_offers_only_what_its_element_supports() {
    let e = entity(&probe("AXGroup", &[]), vec![1, 2], true);
    assert!(e.actions.is_empty());
    assert!(e.enabled, "absent is not disabled");
    assert_eq!(e.click_at, (0, 0));
    assert_eq!(e.path, vec![1, 2]);
    let mut p = probe("AXCheckBox", &["AXRaise", "AXPress"]);
    p.value_settable = true;
    p.expanded_settable = true;
    p.selected_settable = true;
    p.focused_settable = true;
    assert_eq!(
        entity(&p, vec![], true).actions,
        vec!["click", "expand", "select", "toggle", "raise", "key", "type_keys"]
    );
    let mut edit = probe("AXTextArea", &[]);
    edit.value_settable = true;
    assert_eq!(entity(&edit, vec![], true).actions, vec!["type"]);
    assert_eq!(
        entity(&probe("AXWindow", &[]), vec![], true).actions,
        vec!["key", "type_keys"]
    );
}

#[test]
fn a_name_is_the_first_that_is_given() {
    let mut p = probe("AXButton", &[]);
    p.value = "v".to_string();
    assert_eq!(entity(&p, vec![], false).name, "v");
    p.help = "h".to_string();
    assert_eq!(entity(&p, vec![], false).name, "h");
    p.description = "d".to_string();
    assert_eq!(entity(&p, vec![], false).name, "d");
    p.title = "t".to_string();
    p.identifier = "id".to_string();
    p.enabled = Some(false);
    p.bounds = Some(Bounds {
        x: -5,
        y: 10,
        w: 3,
        h: -3,
    });
    let e = entity(&p, vec![], false);
    assert_eq!((e.name.as_str(), e.automation_id.as_str()), ("t", "id"));
    assert!(!e.enabled);
    assert_eq!(e.click_at, (-4, 9));
    assert!(e.bounds.is_none());
    assert_eq!(entity(&p, vec![], true).bounds, p.bounds);
    assert!(entity(&p, vec![7], true).duplicate().path == vec![7]);
}

#[test]
fn rectangles_have_centres() {
    assert_eq!(
        window_bounds(-5, 3, 10, 4),
        Bounds {
            x: -5,
            y: 3,
            w: 15,
            h: 1
        }
    );
    let wide = |x: i32, w: i32| Bounds { x, y: 0, w, h: 0 };
    assert!(centre_fits(wide(1 << 30, i32::MAX)));
    assert!(!centre_fits(wide(i32::MAX, 2)));
    assert!(!centre_fits(wide(i32::MIN, -2)));
    assert_eq!(centre_of(wide(4, -7)), (1, 0));
}

fn seen(pid: i32, element: u64) -> SeenWindow {
    SeenWindow {
        pid,
        app: format!("app{pid}"),
        element,
    }
}

fn at(x: i32) -> Bounds {
    Bounds {
        x,
        y: 1,
        w: 2,
        h: 3,
    }
}

#[test]
fn a_window_keeps_its_handle_and_no_handle_comes_back() {
    let mut t = WindowTable::new();
    assert_eq!(t.list(true, &vec![seen(1, 10), seen(2, 20)]).unwrap(), vec![1, 2]);
    assert_eq!(t.list(true, &vec![seen(2, 20), seen(2, 30)]).unwrap(), vec![2, 3]);
    assert!(t.get(1).is_none());
    assert_eq!(t.list(true, &vec![seen(1, 10)]).unwrap(), vec![4]);
    assert_eq!(t.list(true, &vec![seen(1, 10), seen(1, 10)]).unwrap(), vec![4, 4]);
    assert_eq!(t.windows.len(), 1);
    let err = t.list(false, &vec![]).unwrap_err();
    assert_eq!(err, WindowError::NotTrusted);
    assert!(err.message().starts_with("Accessibility permission missing. Grant the host"));
    assert_eq!(t.windows.len(), 1);
}

#[test]
fn a_handle_lasts_over_two_looks() {
    let mut t = WindowTable::new();
    let first = t.list(true, &vec![seen(1, 10), seen(2, 20)]).unwrap();
    let second = t.list(true, &vec![seen(3, 30), seen(2, 20), seen(1, 10)]).unwrap();
    assert_eq!((second[2], second[1]), (first[0], first[1]));
    assert!(!first.contains(&second[0]));
}

#[test]
fn one_element_of_two_processes_is_two_windows() {
    let mut t = WindowTable::new();
    assert_eq!(
        t.list(true, &vec![seen(1, 10), seen(2, 10), seen(1, 10)]).unwrap(),
        vec![1, 2, 1]
    );
}

#[test]
fn windows_are_described_while_they_last() {
    let mut t = WindowTable::new();
    let live = t.list(true, &vec![seen(1, 10), seen(2, 20)]).unwrap();
    let w = t.info(2, "Notes", at(7)).unwrap();
    assert_eq!(
        (w.name.as_str(), w.class_name.as_str(), w.control_type.as_str()),
        ("Notes", "app2", "window")
    );
    assert_eq!((w.hwnd, w.pid, w.bounds, w.owned_by), (2, 2, at(7), None));
    assert_eq!(
        t.info(9, "", at(0)).unwrap_err().message(),
        "window no longer exists"
    );
    let all = t.infos(
        &live,
        &vec![
            WindowReading {
                title: "a".to_string(),
                bounds: None,
            },
            WindowReading {
                title: "b".to_string(),
                bounds: Some(at(1)),
            },
        ],
    );
    assert_eq!(all.len(), 1);
    assert_eq!(all[0].name, "b");
}

#[test]
fn a_window_is_chosen_by_handle_or_by_focus() {
    let mut t = WindowTable::new();
    t.list(true, &vec![seen(1, 10), seen(2, 20)]).unwrap();
    assert_eq!(t.choose_window(Some(2), 10), Ok(2));
    assert_eq!(t.choose_window(None, 10), Ok(1));
    assert_eq!(
        t.choose_window(Some(5), 10).unwrap_err().message(),
        "unknown window ID; call windows again"
    );
    assert_eq!(
        t.choose_window(None, 11).unwrap_err().message(),
        "focused window unavailable"
    );
}

fn args(max_depth: u32, max_elements: usize) -> DiscoverArgs {
    DiscoverArgs {
        hwnd: None,
        max_depth,
        max_elements,
        ttl_secs: 60,
        filter: Filter::Actionable,
        verbose: false,
    }
}

fn kids(e: u64) -> Vec<u64> {
    match e {
        0 => vec![1, 2, 3],
        1 => vec![4, 5],
        3 => vec![6],
        6 => vec![7],
        _ => vec![],
    }
}

fn walk(a: &DiscoverArgs, late_after: usize) -> Walk {
    let mut w = Walk::new(0, a);
    while let Some(step) = w.next(w.nodes.len() >= late_after) {
        let p = probe("AXGroup", &[]);
        if w.visit(&step, &p) {
            w.descend(&step, &kids(step.element));
        }
    }
    w
}

#[test]
fn a_walk_sees_every_element_in_order() {
    let w = walk(&args(24, 400), 100);
    let order: Vec<u64> = w.nodes.iter().map(|n| n.element).collect();
    assert_eq!(order, vec![0, 1, 4, 5, 2, 3, 6, 7]);
    assert_eq!(w.nodes[3].entity.path, vec![0, 1]);
    assert_eq!(w.nodes[7].entity.path, vec![2, 0, 0]);
    assert!(w.truncated.is_none());
    let mut paths: Vec<Vec<u32>> = w.nodes.iter().map(|n| n.entity.path.clone()).collect();
    paths.sort();
    paths.dedup();
    assert_eq!(paths.len(), 8);
}

#[test]
fn a_cut_walk_says_what_cut_it() {
    let w = walk(&args(24, 3), 100);
    assert_eq!(w.nodes.len(), 3);
    assert_eq!(
        w.truncated.unwrap().message(),
        "element cap 3 reached; examined 3, at least 3 not visited"
    );
    let w = walk(&args(24, 0), 100);
    assert_eq!(w.nodes.len(), 1);
    let w = walk(&args(24, 400), 2);
    assert_eq!(
        w.truncated.unwrap().message(),
        "time budget 5000ms reached; examined 2, at least 4 not visited"
    );
    let w = walk(&args(1, 400), 100);
    let order: Vec<u64> = w.nodes.iter().map(|n| n.element).collect();
    assert_eq!(order, vec![0, 1, 2, 3]);
    assert_eq!(w.truncated.unwrap(), Truncation::Depth { max: 1 });
    assert_eq!(w.truncated.unwrap().message(), "depth cap 1 reached");
}

#[test]
fn no_walk_goes_deeper_than_it_may() {
    let mut w = Walk::new(0, &args(1000, 1_000_000));
    let mut n: u64 = 0;
    while let Some(step) = w.next(false) {
        if w.visit(&step, &probe("AXGroup", &[])) {
            n += 1;
            w.descend(&step, &vec![n]);
        }
    }
    assert_eq!(w.nodes.len(), 65);
    assert_eq!(w.truncated.unwrap().message(), "depth cap 1000 reached");
    let mut wide = Walk::new(0, &args(1, 1_000_000));
    let root = wide.next(false).unwrap();
    assert!(wide.visit(&root, &probe("AXGroup", &[])));
    wide.descend(&root, &(0..3000).collect::<Vec<u64>>());
    while let Some(step) = wide.next(false) {
        let step: Step = step;
        wide.visit(&step, &probe("AXGroup", &[]));
    }
    assert_eq!(wide.nodes.len(), 2000);
    assert!(wide
        .truncated
        .unwrap()
        .message()
        .starts_with("element cap 2000 reached; examined 2000, at least 1001"));
}

fn node(element: u64, e: Entity) -> Node {
    Node { element, entity: e }
}

fn with_path(name: &str, path: Vec<u32>, actions: &[&str]) -> Entity {
    let mut e = ent(name, "button", "", true);
    e.path = path;
    e.actions = actions.iter().map(|a| a.to_string()).collect();
    e
}

fn nodes() -> Vec<Node> {
    vec![
        node(1, with_path("Window", vec![], &[])),
        node(2, with_path("Save", vec![0], &["click", "key", "type_keys"])),
        node(3, with_path("SAVE", vec![1], &["click"])),
        node(4, with_path("Open", vec![2], &["click"])),
        node(5, with_path("open", vec![3], &["click"])),
    ]
}

#[test]
fn entities_are_filtered() {
    let names = |f: Filter| -> Vec<String> {
        entities_of(f, &nodes()).into_iter().map(|e| e.name).collect()
    };
    assert_eq!(names(Filter::All), vec!["Save", "SAVE", "Open", "open"]);
    assert_eq!(names(Filter::Actionable), vec!["Save", "SAVE", "Open", "open"]);
    let bare = vec![node(1, with_path("label", vec![], &[]))];
    assert!(entities_of(Filter::All, &bare).is_empty());
    assert!(entities_of(Filter::Actionable, &bare).is_empty());
}

#[test]
fn a_discovery_is_ordered_bounded_and_tells_what_it_left() {
    let mut a = args(24, 4);
    for verbose in [false, true] {
        a.verbose = verbose;
        let mut w = Walk::new(0, &a);
        while let Some(step) = w.next(false) {
            let mut p = probe("AXButton", &["AXPress"]);
            p.bounds = Some(at(5));
            if w.visit(&step, &p) {
                w.descend(&step, &kids(step.element));
            }
        }
        let es = entities_of(Filter::All, &w.nodes);
        let paths: Vec<Vec<u32>> = es.iter().map(|e| e.path.clone()).collect();
        assert_eq!(paths, vec![vec![], vec![0], vec![0, 0], vec![0, 1]]);
        assert!(paths.windows(2).all(|p| p[0] < p[1]));
        assert!(es.iter().all(|e| e.actions == vec!["click"] && e.bounds.is_some() == verbose));
        assert!(w.truncated.is_some());
    }
}

#[test]
fn a_live_walk_goes_as_far_as_any() {
    let mut w = Walk::live(0);
    while let Some(step) = w.next(false) {
        let mut p = probe("AXGroup", &[]);
        p.bounds = Some(at(5));
        if w.visit(&step, &p) {
            w.descend(&step, &kids(step.element));
        }
    }
    assert_eq!(w.nodes.len(), 8);
    assert!(w.nodes.iter().all(|n| n.entity.bounds == Some(at(5))));
    assert!(w.truncated.is_none());
    let mut deep = Walk::live(0);
    while let Some(step) = deep.next(false) {
        if deep.visit(&step, &probe("AXGroup", &[])) {
            deep.descend(&step, &vec![step.element + 1]);
        }
    }
    assert_eq!(deep.nodes.len(), 65);
    assert_eq!(deep.truncated, Some(Truncation::Depth { max: 64 }));
}

fn keep(store: &mut SnapshotStore, hwnd: isize, now: u64, ttl: u64) -> Scope {
    let scope = store.make_room(hwnd, now, ttl);
    store.insert(scope, nodes());
    scope
}

#[test]
fn a_scope_expires_within_bounds() {
    let mut s = SnapshotStore::new();
    assert_eq!(
        keep(&mut s, 7, 100, 60),
        Scope {
            hwnd: 7,
            generation: 1,
            exp: 160
        }
    );
    assert_eq!(keep(&mut s, 7, 100, 0).exp, 101);
    assert_eq!(keep(&mut s, 7, 100, 9999).exp, 400);
    assert_eq!(s.snapshots.len(), 3);
    s.make_room(7, 161, 60);
    assert_eq!(s.snapshots.len(), 1);
    assert_eq!(s.snapshots[0].generation, 3);
    let cfg = EngineConfig { lease_key: vec![1] };
    assert_eq!(cfg.lease_key.len(), 1);
}

#[test]
fn the_oldest_snapshot_makes_room() {
    let mut s = SnapshotStore::new();
    for _ in 0..MAX_SNAPSHOTS {
        keep(&mut s, 7, 100, 60);
    }
    assert_eq!(s.snapshots.len(), 64);
    let first = Scope {
        hwnd: 7,
        generation: 1,
        exp: 160,
    };
    assert!(s.find(first).is_some());
    let last = keep(&mut s, 7, 100, 60);
    assert_eq!(s.snapshots.len(), 64);
    assert!(s.find(first).is_none());
    assert_eq!(s.find(last).unwrap().nodes.len(), 5);
    let other = Scope { hwnd: 8, ..last };
    assert!(s.find(other).is_none());
}

fn request(select: Option<Selector>, path: Vec<u32>, action: &str) -> ActArgs {
    ActArgs {
        scope: "scope".to_string(),
        select,
        path,
        action: action.to_string(),
        value: None,
    }
}

fn named(name: &str) -> Option<Selector> {
    Some(Selector {
        name: Some(name.to_string()),
        ..Default::default()
    })
}

fn told<T: std::fmt::Debug>(r: Result<T, Refusal>) -> (Status, String) {
    let e = r.unwrap_err();
    (e.status, e.detail)
}

fn by_path(s: &SnapshotStore, path: Vec<u32>, scope: Scope) -> Result<Target, Refusal> {
    resolve(s, &request(None, path, "click"), scope, &vec![], None)
}

#[test]
fn an_action_is_barred_in_order() {
    let mut s = SnapshotStore::new();
    let scope = keep(&mut s, 7, 100, 60);
    let stop = || Some("stopped by the user".to_string());
    assert_eq!(
        told(check_entry(&s, false, stop(), Err("bad".to_string()))),
        (Status::Error, "Accessibility permission missing".to_string())
    );
    assert_eq!(
        told(check_entry(&s, true, stop(), Err("bad".to_string()))),
        (Status::Stopped, "stopped by the user".to_string())
    );
    assert_eq!(
        told(check_entry(&s, true, None, Err("bad".to_string()))),
        (Status::IdentityChanged, "bad".to_string())
    );
    let gone = Scope {
        generation: 99,
        ..scope
    };
    let evicted = || {
        (
            Status::IdentityChanged,
            "snapshot expired or evicted; discover again".to_string(),
        )
    };
    assert_eq!(told(check_entry(&s, true, None, Ok(gone))), evicted());
    assert_eq!(told(by_path(&s, vec![1], gone)), evicted());
    assert_eq!(check_entry(&s, true, None, Ok(scope)).unwrap(), scope);
    assert!(by_path(&s, vec![1], scope).is_ok());
}

#[test]
fn a_path_leads_back_to_its_element() {
    let mut s = SnapshotStore::new();
    let scope = keep(&mut s, 7, 100, 60);
    for (i, n) in nodes().into_iter().enumerate() {
        let path = n.entity.path.clone();
        let t = by_path(&s, path.clone(), scope).unwrap();
        assert_eq!((t.hwnd(), t.path(), t.matched_by()), (7, path, None));
        let e = n.entity.duplicate();
        let allowed = authorise(&t, n.element, &e, "click", None).is_ok();
        assert_eq!(allowed, i > 0);
        assert!(authorise(&t, n.element + 100, &e, "click", None).is_err());
    }
    assert_eq!(
        told(by_path(&s, vec![9], scope)),
        (Status::NotFound, "path was not observed".to_string())
    );
}

#[test]
fn a_selector_has_to_mean_one_element() {
    let mut s = SnapshotStore::new();
    let scope = keep(&mut s, 7, 100, 60);
    let ask = |sel: Option<Selector>| {
        resolve(&s, &request(sel, vec![], "click"), scope, &nodes(), None)
    };
    let t = ask(named("Save")).unwrap();
    assert_eq!((t.path(), t.matched_by()), (vec![0], Some(MatchTier::Exact)));
    assert_eq!(
        told(ask(named("OPEN"))),
        (
            Status::Ambiguous,
            "selector resolved 2 elements; discover again or narrow it".to_string()
        )
    );
    assert_eq!(
        told(ask(named("Quit"))),
        (
            Status::NotFound,
            "selector resolved 0 elements; discover again or narrow it".to_string()
        )
    );
    let hits = find_hits(&nodes(), &named("save").unwrap());
    assert_eq!(
        hits,
        vec![
            Hit {
                place: 1,
                tier: MatchTier::Case
            },
            Hit {
                place: 2,
                tier: MatchTier::Case
            }
        ]
    );
    assert_eq!(pick_hit(&hits, None).unwrap_err().status, Status::Ambiguous);
    assert_eq!(pick_hit(&hits[..1].to_vec(), None).unwrap().place, 1);
}

#[test]
fn a_selector_survives_a_reshape() {
    let mut s = SnapshotStore::new();
    let scope = keep(&mut s, 7, 100, 60);
    let live = vec![
        node(1, with_path("Window", vec![], &[])),
        node(40, with_path("New", vec![0], &["click"])),
        node(2, with_path("Save", vec![1, 0], &["click"])),
    ];
    let a = request(named("Save"), vec![3], "click");
    let t = resolve(&s, &a, scope, &live, None).unwrap();
    assert_eq!((t.hwnd(), t.path()), (7, vec![1, 0]));
    assert!(authorise(&t, 2, &live[2].entity, "click", None).is_ok());
    let gone = request(named("Open"), vec![2], "click");
    assert_eq!(
        told(resolve(&s, &gone, scope, &live, None)).0,
        Status::NotFound
    );
}

#[test]
fn missing_is_not_said_of_what_was_not_examined() {
    let mut s = SnapshotStore::new();
    let scope = keep(&mut s, 7, 100, 60);
    let cut = Some(Truncation::Depth { max: 64 });
    let quit = request(named("Quit"), vec![], "click");
    assert_eq!(
        told(resolve(&s, &quit, scope, &nodes(), cut)),
        (
            Status::Error,
            "lookup was cut short: depth cap 64 reached".to_string()
        )
    );
    let save = request(named("Save"), vec![], "click");
    assert_eq!(resolve(&s, &save, scope, &nodes(), cut).unwrap().path(), vec![0]);
    let open = request(named("OPEN"), vec![], "click");
    assert_eq!(
        told(resolve(&s, &open, scope, &nodes(), cut)).0,
        Status::Ambiguous
    );
}

#[test]
fn a_tier_is_told_only_of_a_name() {
    let mut s = SnapshotStore::new();
    let scope = keep(&mut s, 7, 100, 60);
    let mut e = with_path("Save", vec![0], &["click"]);
    e.automation_id = "btnSave".to_string();
    let live = vec![node(2, e)];
    let by_id = Selector {
        automation_id: Some("btnSave".to_string()),
        ..Default::default()
    };
    let a = request(Some(by_id), vec![], "click");
    assert_eq!(resolve(&s, &a, scope, &live, None).unwrap().matched_by(), None);
    let a = request(named("SAVE"), vec![], "click");
    assert_eq!(
        resolve(&s, &a, scope, &live, None).unwrap().matched_by(),
        Some(MatchTier::Case)
    );
}

#[test]
fn paths_outlast_an_action() {
    let mut s = SnapshotStore::new();
    keep(&mut s, 8, 100, 60);
    let scope = keep(&mut s, 7, 100, 60);
    let fresh = s.renew(scope, 120, 60).unwrap();
    assert_eq!(
        fresh,
        Scope {
            hwnd: 7,
            generation: 3,
            exp: 180
        }
    );
    assert_eq!(s.last_generation, 3);
    assert_eq!(s.snapshots.len(), 3);
    for path in [vec![], vec![0], vec![1], vec![2], vec![3], vec![9]] {
        let before = by_path(&s, path.clone(), scope);
        let after = by_path(&s, path, fresh);
        assert_eq!(format!("{before:?}"), format!("{after:?}"));
    }
    let again = s.renew(fresh, 170, 60).unwrap();
    assert_eq!(again.generation, 4);
    assert!(s.find(scope).is_none());
    assert_eq!(by_path(&s, vec![0], again).unwrap().path(), vec![0]);
    assert!(s.renew(scope, 170, 60).is_none());
    assert_eq!((s.last_generation, s.snapshots.len()), (4, 2));
}

fn save_target() -> Target {
    let mut s = SnapshotStore::new();
    let scope = keep(&mut s, 7, 100, 60);
    by_path(&s, vec![0], scope).unwrap()
}

#[test]
fn leave_takes_everything_at_once() {
    let t = save_target();
    let now = || with_path("Save", vec![0], &["click", "key"]);
    let try_it = |e: &Entity, element: u64, action: &str, stop: Option<&str>| {
        authorise(&t, element, e, action, stop.map(|w| w.to_string()))
            .map(|_| ())
            .map_err(|r| (r.status, r.detail))
    };
    assert_eq!(try_it(&now(), 2, "click", None), Ok(()));
    let changed = || {
        Err((
            Status::IdentityChanged,
            "element changed; discover again".to_string(),
        ))
    };
    assert_eq!(try_it(&now(), 3, "click", None), changed());
    let mut e = now();
    e.name = "Save as".to_string();
    assert_eq!(try_it(&e, 2, "click", None), changed());
    let mut e = now();
    e.control_type = "link".to_string();
    assert_eq!(try_it(&e, 2, "click", None), changed());
    let mut e = now();
    e.automation_id = "other".to_string();
    assert_eq!(try_it(&e, 2, "click", None), changed());
    let mut e = now();
    e.enabled = false;
    assert_eq!(
        try_it(&e, 2, "nothing", Some("stop")),
        Err((Status::Disabled, "control reports AXEnabled=false".to_string()))
    );
    assert_eq!(
        try_it(&now(), 2, "type", Some("stop")),
        Err((
            Status::PatternGone,
            "action not supported; use actions returned by discover".to_string()
        ))
    );
    assert_eq!(
        try_it(&now(), 2, "click", Some("stop")),
        Err((Status::Stopped, "stop".to_string()))
    );
}

fn plan(control: &str, action: &str, value: Option<&str>, us: bool) -> Result<Dispatch, String> {
    let mut s = SnapshotStore::new();
    let scope = s.make_room(7, 0, 60);
    let mut e = with_path("it", vec![0], &[action]);
    e.control_type = control.to_string();
    s.insert(scope, vec![node(2, e.duplicate())]);
    let t = by_path(&s, vec![0], scope).unwrap();
    let permit = authorise(&t, 2, &e, action, None).unwrap();
    permit.plan(value, us).map_err(|r| {
        assert_eq!(r.status, Status::Error);
        r.detail
    })
}

#[test]
fn each_action_has_its_dispatch() {
    assert!(matches!(plan("button", "click", None, true), Ok(Dispatch::Press)));
    assert!(matches!(plan("check box", "toggle", None, true), Ok(Dispatch::Press)));
    assert!(matches!(plan("button", "raise", None, true), Ok(Dispatch::Raise)));
    assert!(matches!(plan("row", "expand", None, true), Ok(Dispatch::Expand)));
    assert!(matches!(plan("row", "select", None, true), Ok(Dispatch::Select)));
    match plan("edit", "type", Some("hello"), true) {
        Ok(Dispatch::SetValue(v)) => assert_eq!(v, "hello"),
        other => panic!("{other:?}"),
    }
    match plan("edit", "key", Some("Cmd+S"), true) {
        Ok(Dispatch::Keys(keys, focus)) => {
            assert_eq!(keys[0].code, 1);
            assert!(keys[0].flags.command);
            assert_eq!(focus, Focus::Control);
        }
        other => panic!("{other:?}"),
    }
    match plan("window", "type_keys", Some("hi"), false) {
        Ok(Dispatch::Text(t, focus)) => {
            assert_eq!((t.as_str(), focus), ("hi", Focus::Window));
        }
        other => panic!("{other:?}"),
    }
}

#[test]
fn a_value_is_checked_before_anything_moves() {
    let err = |control: &str, action: &str, value: Option<&str>, us: bool| {
        plan(control, action, value, us).unwrap_err()
    };
    assert_eq!(err("edit", "type", None, true), "type requires value");
    assert_eq!(err("edit", "key", None, true), "keyboard action requires value");
    assert_eq!(
        err("edit", "type_keys", None, true),
        "keyboard action requires value"
    );
    assert_eq!(err("edit", "type_keys", Some(""), true), "no text to send");
    assert_eq!(
        err("edit", "key", Some("Cmd+"), true),
        "\"Cmd+\" has modifiers but no key"
    );
    assert!(err("edit", "key", Some("Cmd+S"), false).starts_with("Alphanumeric shortcuts"));
    assert_eq!(
        err("edit", "key", Some("F24"), true),
        "key unsupported on macOS"
    );
    assert_eq!(err("edit", "dance", None, true), "unsupported action");
}

#[test]
fn no_key_goes_where_the_focus_is_not() {
    assert!(confirm_focus(Focus::Control, true).is_ok());
    let e = confirm_focus(Focus::Control, false).unwrap_err();
    assert_eq!(
        (e.status, e.detail.as_str()),
        (
            Status::Error,
            "control did not accept focus; no keyboard input sent"
        )
    );
    assert_eq!(
        confirm_focus(Focus::Window, false).unwrap_err().detail,
        "target is not this application's focused window; no keyboard input sent"
    );
    assert!(check_stop(None).is_ok());
    let e = check_stop(Some("stop".to_string())).unwrap_err();
    assert_eq!((e.status, e.detail.as_str()), (Status::Error, "stop"));
}

#[test]
fn a_path_is_followed_child_by_child() {
    assert_eq!(follow(&vec![5, 6], 1).unwrap(), 6);
    let e = follow(&vec![5, 6], 2).unwrap_err();
    assert_eq!(
        (e.status, e.detail.as_str()),
        (Status::Error, "path changed; discover again")
    );
    assert_eq!(window_closed().detail, "window closed");
}

#[test]
fn a_report_tells_what_happened() {
    let t = save_target();
    let a = request(None, vec![0], "click");
    let now = with_path("Save", vec![0], &["click"]);
    let next = || "7.2.160.tag".to_string();
    let r = dispatched(&a, &t, &now, &Dispatch::Press, false, next());
    assert!(r.ok && r.screen_changed.is_none());
    assert_eq!(r.next_scope, Some(next()));
    assert_eq!(
        (r.status.as_str(), r.action.as_str(), r.resolved_by.as_str(), r.target.as_str()),
        ("ok", "click", "path", "Save")
    );
    let said = "Native action dispatched. Discover again to verify the resulting UI.";
    assert_eq!(r.detail.as_deref(), Some(said));
    let keys = Dispatch::Keys(vec![], Focus::Control);
    assert_eq!(
        dispatched(&a, &t, &now, &keys, true, next()).detail.as_deref(),
        Some(said)
    );
    assert_eq!(
        dispatched(&a, &t, &now, &keys, false, next()).detail.unwrap(),
        format!("{said} The target application was not frontmost; macOS may have discarded this chord. Re-read the UI, or use type_keys, which is unaffected.")
    );
}

#[test]
fn a_refusal_never_reads_ok() {
    let a = request(named("Save"), vec![], "click");
    for (status, name) in [
        (Status::IdentityChanged, "identity_changed"),
        (Status::Disabled, "disabled"),
        (Status::PatternGone, "pattern_gone"),
        (Status::NotFound, "not_found"),
        (Status::Ambiguous, "ambiguous"),
        (Status::Error, "error"),
        (Status::Stopped, "stopped"),
    ] {
        let why = Refusal {
            status,
            detail: "why".to_string(),
        };
        let r = refused(&a, Some(MatchTier::Case), "it", &why);
        assert!(!r.ok && r.next_scope.is_none());
        assert_eq!(r.status, name);
        assert_eq!(r.resolved_by, "selector");
        assert_eq!(r.matched_by, Some(MatchTier::Case));
        assert_eq!(r.target, "it");
        assert_eq!(r.detail.as_deref(), Some("why"));
    }
}
