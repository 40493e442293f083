use wincrust::lease::{read_scope, read_signed, scope_body, sign_scope};
use wincrust::uia::act::{check_entry, Status};
use wincrust::uia::snapshot::SnapshotStore;
use wincrust::uia::Scope;

fn scope(hwnd: isize, generation: u64, exp: u64) -> Scope {
    Scope {
        hwnd,
        generation,
        exp,
    }
}

#[test]
fn a_scope_is_written_in_three_fields() {
    assert_eq!(scope_body(scope(7, 2, 160)), "7.2.160");
    assert_eq!(scope_body(scope(-1, 0, 0)), "-1.0.0");
    assert_eq!(
        scope_body(scope(isize::MIN, u64::MAX, u64::MAX)),
        format!("{}.{}.{}", isize::MIN, u64::MAX, u64::MAX)
    );
}

#[test]
fn a_scope_reads_back_until_it_expires() {
    for s in [
        scope(7, 2, 160),
        scope(-3, u64::MAX, 1),
        scope(isize::MIN, 1, u64::MAX),
        scope(isize::MAX, 1, u64::MAX),
    ] {
        assert_eq!(read_scope(&scope_body(s), true, s.exp), Ok(s));
        assert_eq!(read_scope(&scope_body(s), true, 0), Ok(s));
    }
    assert_eq!(
        read_scope("7.2.160", true, 161),
        Err("scope expired; discover again".to_string())
    );
}

#[test]
fn a_scope_without_its_signature_is_refused() {
    assert_eq!(
        read_scope("7.2.160", false, 0),
        Err("scope signature does not match; discover again".to_string())
    );
    assert_eq!(
        read_scope("", false, 0),
        Err("scope signature does not match; discover again".to_string())
    );
}

#[test]
fn a_scope_has_all_its_fields() {
    for body in [
        "",
        "7.2",
        "7.2.160.1",
        "7.-2.160",
        "x.2.160",
        "7..160",
        "7.2.18446744073709551616",
        "9223372036854775808.2.160",
    ] {
        assert_eq!(
            read_scope(body, true, 0),
            Err("malformed scope".to_string()),
            "{body}"
        );
    }
}

#[test]
fn a_scope_opens_until_it_expires() {
    let mut store = SnapshotStore::new();
    let s = store.make_room(7, 100, 60);
    store.insert(s, vec![]);
    let text = sign_scope(s, b"key");
    let open = |now: u64| check_entry(&store, true, None, read_signed(&text, b"key", now));
    assert_eq!(open(160).unwrap(), s);
    let e = open(161).unwrap_err();
    assert_eq!(
        (e.status, e.detail.as_str()),
        (Status::IdentityChanged, "scope expired; discover again")
    );
}

const TAG: &str = "ea2343c1b4de61e7cd25669bdd9af89f5d3582f75ee0661ceeb24b97a76c8269";

fn key() -> Vec<u8> {
    (0..32).collect()
}

#[test]
fn a_scope_is_signed_with_its_key() {
    let s = scope(7, 2, 160);
    assert_eq!(sign_scope(s, &key()), format!("7.2.160.{TAG}"));
    assert_eq!(
        sign_scope(s, b""),
        "7.2.160.c3e09bfb5c9d974efeae42f907feffb201aa06d552e4c7cb4e7a766129d12190"
    );
    assert_eq!(
        sign_scope(s, &[b'k'; 100]),
        "7.2.160.dc8fc1ce178dfc237adb4b84f62b6c28dc2e6668b12d555b35c41761e788a046"
    );
}

#[test]
fn a_signed_scope_reads_back_under_its_key() {
    for s in [scope(7, 2, 160), scope(-3, u64::MAX, 1)] {
        for key in [vec![], key(), vec![b'k'; 100]] {
            let text = sign_scope(s, &key);
            assert_eq!(read_signed(&text, &key, s.exp), Ok(s));
            assert_eq!(
                read_signed(&text, &key, s.exp + 1),
                Err("scope expired; discover again".to_string())
            );
            assert_eq!(
                read_signed(&text, b"another", 0),
                Err("scope signature does not match; discover again".to_string())
            );
        }
    }
}

#[test]
fn an_altered_authorisation_is_refused() {
    for text in [
        format!("8.2.160.{TAG}"),
        format!("7.2.161.{TAG}"),
        format!("7.2.160.{}", &TAG[2..]),
        format!("7.2.160.{}", &TAG[1..]),
        format!("7.2.160.{TAG}00"),
        format!("7.2.160.{}", TAG.to_uppercase()),
        format!("7.2.160.+{}", &TAG[1..]),
        format!("7.2.160{TAG}"),
        "7.2.160.".to_string(),
        "7.2.160".to_string(),
        TAG.to_string(),
        String::new(),
    ] {
        assert_eq!(
            read_signed(&text, &key(), 0),
            Err("scope signature does not match; discover again".to_string()),
            "{text}"
        );
    }
}
