use wincrust::cli::{
    act_request, check_runs, parse_allowlist, parse_detail, parse_path, Detail, PathError,
    RequestError,
};
use wincrust::uia::Selector;

#[test]
fn a_path_is_read_index_by_index() {
    assert_eq!(parse_path("1,0,0,0,1").unwrap(), vec![1, 0, 0, 0, 1]);
    assert_eq!(parse_path(" 3 ,,+4, ").unwrap(), vec![3, 4]);
    assert_eq!(parse_path("").unwrap(), Vec::<u32>::new());
    assert_eq!(parse_path("4294967295").unwrap(), vec![u32::MAX]);
}

#[test]
fn a_path_fails_as_number_parsing_does() {
    for s in [
        "x", "-1", "+", "-", "1x", "4294967296", "99999999999999999999", "4294967296x",
        "99999999999x", "+-1", "++1", "1 2", "٣",
    ] {
        let want = s.parse::<u32>().unwrap_err().to_string();
        assert_eq!(parse_path(s).unwrap_err().message(), want, "{s}");
    }
    assert_eq!(parse_path("7,x,99999999999"), Err(PathError::Digit));
    assert_eq!(parse_path("7,99999999999,x"), Err(PathError::TooLarge));
}

#[test]
fn an_allowlist_drops_what_is_empty() {
    assert_eq!(
        parse_allowlist(" 127.0.0.1, ,10.0.0.2 ,"),
        vec!["127.0.0.1".to_string(), "10.0.0.2".to_string()]
    );
    assert!(parse_allowlist("").is_empty());
}

#[test]
fn details_have_names() {
    assert_eq!(parse_detail("text"), Ok(Detail::Text));
    assert_eq!(parse_detail("image"), Ok(Detail::Image));
    assert_eq!(parse_detail("diff"), Ok(Detail::Diff));
    assert_eq!(
        parse_detail("Diff"),
        Err("unknown detail 'Diff' (text|image|diff)".to_string())
    );
}

#[test]
fn a_request_needs_something_to_act_on() {
    let ask = |path: &str, name: Option<&str>| {
        act_request(
            "s".to_string(),
            path,
            Selector {
                name: name.map(|n| n.to_string()),
                automation_id: None,
                control_type: None,
            },
            "click".to_string(),
            None,
        )
    };
    let by_path = ask("1,2", None).unwrap();
    assert_eq!(by_path.path, vec![1, 2]);
    assert!(by_path.select.is_none());
    let by_name = ask("", Some("Save")).unwrap();
    assert!(by_name.path.is_empty());
    assert_eq!(by_name.select.unwrap().name.as_deref(), Some("Save"));
    assert_eq!(
        ask(" , ", None).unwrap_err().message(),
        "give --path or at least one of --name / --automation-id / --control-type"
    );
    assert!(matches!(
        ask("1,z", Some("Save")).unwrap_err(),
        RequestError::Path(PathError::Digit)
    ));
}

#[test]
fn at_least_one_run_is_asked_for() {
    assert!(check_runs(1).is_ok());
    assert_eq!(
        check_runs(0).unwrap_err().message(),
        "--runs must be at least 1"
    );
}
