use rnix::eval::Eval;
use rnix::nixpath::{find_file_plan, is_uri, mk_nix_path, parse_nix_path, SearchStep};
use rnix::value::Value;

#[test]
fn test_nix_path() {
    let parsed = parse_nix_path(
        "nixpkgs=https://github.com:foo=bar:nixpkgs2=https://github.com:foo=bar:qux=:baz",
    );
    let got: Vec<&str> = parsed.iter().map(|s| s.as_str()).collect();
    assert_eq!(
        got,
        &[
            "nixpkgs=https://github.com",
            "foo=bar",
            "nixpkgs2=https://github.com",
            "foo=bar",
            "qux=",
            "baz"
        ]
    )
}

#[test]
fn parse_plain_entries() {
    let parsed = parse_nix_path("a:b:c");
    let got: Vec<&str> = parsed.iter().map(|s| s.as_str()).collect();
    assert_eq!(got, &["a", "b", "c"]);
}

#[test]
fn parse_empty_and_trailing() {
    assert!(parse_nix_path("").is_empty());
    let parsed = parse_nix_path("a:");
    let got: Vec<&str> = parsed.iter().map(|s| s.as_str()).collect();
    assert_eq!(got, &["a"]);
}

#[test]
fn uri_schemes_recognised() {
    assert!(is_uri("https://github.com"));
    assert!(is_uri("channel:nixos-unstable"));
    assert!(is_uri("ssh://host/path"));
    assert!(!is_uri("plain/path"));
    assert!(!is_uri("http:/missing-slash"));
}

#[test]
fn nix_path_value_splits_prefixes() {
    let mut ev = Eval::new();
    let entries = vec![
        "nixpkgs=/tank/nixpkgs".to_string(),
        "/fallback".to_string(),
    ];
    let v = mk_nix_path(&mut ev, &entries);
    let items = match v {
        Value::List(items) => items,
        other => panic!("expected a list, got {:?}", other),
    };
    assert_eq!(items.len(), 2);
    let first = match ev.force(items[0], 10_000).unwrap() {
        Value::AttrSet(m) => m,
        other => panic!("expected a set, got {:?}", other),
    };
    let prefix = ev.force(first.get("prefix").unwrap(), 10_000).unwrap();
    let path = ev.force(first.get("path").unwrap(), 10_000).unwrap();
    match (prefix, path) {
        (Value::Str { string: p, .. }, Value::Str { string: q, .. }) => {
            assert_eq!(p, "nixpkgs");
            assert_eq!(q, "/tank/nixpkgs");
        }
        other => panic!("expected strings, got {:?}", other),
    }
    let second = match ev.force(items[1], 10_000).unwrap() {
        Value::AttrSet(m) => m,
        other => panic!("expected a set, got {:?}", other),
    };
    match ev.force(second.get("prefix").unwrap(), 10_000).unwrap() {
        Value::Str { string: p, .. } => assert_eq!(p, ""),
        other => panic!("expected a string, got {:?}", other),
    }
}

#[test]
fn plan_prefers_matching_prefix() {
    let entries = vec![
        ("nixpkgs".to_string(), "/tank/nixpkgs".to_string()),
        ("".to_string(), "/var/channels".to_string()),
        ("other".to_string(), "/elsewhere".to_string()),
    ];
    let plan = find_file_plan(&entries, "nixpkgs", "lib/default.nix");
    assert_eq!(plan.len(), 2);
    match &plan[0] {
        SearchStep::CheckPath(p) => assert_eq!(p, "/tank/nixpkgs/lib/default.nix"),
        other => panic!("expected a direct check, got {:?}", other),
    }
    match &plan[1] {
        SearchStep::ScanDir { dir, name, rest } => {
            assert_eq!(dir, "/var/channels");
            assert_eq!(name, "nixpkgs");
            assert_eq!(rest, "lib/default.nix");
        }
        other => panic!("expected a directory scan, got {:?}", other),
    }
}
