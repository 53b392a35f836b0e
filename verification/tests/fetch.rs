use gdn_gis::fetch::{flag, run, script, Archive, FetchError};
use gdn_gis::keyed::Keyed;
use gdn_gis::order::order_of;

fn args(a: &[&str]) -> Vec<String> {
    a.iter().map(|s| s.to_string()).collect()
}

fn some(s: &str) -> Option<String> {
    Some(s.to_string())
}

#[test]
fn scripts_lie_below_the_root() {
    assert_eq!(script("/p", "x.sh"), "/p/scripts/x.sh");
}

#[test]
fn flags_take_the_next_argument() {
    let a = args(&["-u", "me", "-p"]);
    assert_eq!(flag(&a, "-u"), some("me"));
    assert_eq!(flag(&a, "-p"), None);
    assert_eq!(flag(&a, "-o"), None);
}

#[test]
fn maps_need_credentials() {
    let a = args(&["-u", "me", "-o", "out.zip"]);
    assert!(matches!(run("/p", "fetch-maps", &args(&[]), None, None, None, some("pw")), Err(FetchError::NoUser)));
    assert!(matches!(run("/p", "fetch-maps", &a, None, None, None, None), Err(FetchError::NoPass)));
    let f = run("/p", "fetch-maps", &a, some("cfg.zip"), None, some("env"), some("pw")).unwrap();
    assert_eq!(f.script, "/p/scripts/fetch-maps.sh");
    assert_eq!(f.args, vec!["out.zip", "me", "pw"]);
    let f = run("/p", "fetch-maps", &args(&[]), None, None, some("env"), some("pw")).unwrap();
    assert_eq!(f.args, vec!["data/maps-viewer.zip", "env", "pw"]);
}

#[test]
fn works_need_configuration() {
    assert!(matches!(run("/p", "fetch-works", &args(&[]), None, None, None, None), Err(FetchError::NoWorks)));
    let w = Archive { dir: "d".to_string(), bucket: "b".to_string(), fetch_match: "m".to_string() };
    let f = run("/p", "fetch-works", &args(&[]), None, Some(w), None, None).unwrap();
    assert_eq!(f.script, "/p/scripts/fetch-works.sh");
    assert_eq!(f.args, vec!["d", "b", "m"]);
}

#[test]
fn keyed_table_remembers_order() {
    let mut k: Keyed<u8> = Keyed::new();
    k.push("b".to_string(), 1);
    k.push("a".to_string(), 2);
    assert_eq!(k.find("a"), Some(1));
    assert_eq!(k.find("c"), None);
    k.set(1, 7);
    *k.value_mut(0) = 9;
    assert_eq!((k.len(), k.key(0).as_str(), *k.value(1)), (2, "b", 7));
    assert_eq!(k.into_values(), vec![9, 7]);
}

#[test]
fn order_by_number_text_and_place() {
    let ts = args(&["b", "a", "b", "a"]);
    assert_eq!(order_of(&vec![1, 1, 0, 1], &ts), vec![2, 1, 3, 0]);
    assert_eq!(order_of(&vec![], &vec![]), Vec::<usize>::new());
}
