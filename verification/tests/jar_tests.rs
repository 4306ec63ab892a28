use boluo_extra::codec::encode_set_cookie;
use boluo_extra::jar::{CookieJar, DeltaEntry};
use boluo_extra::record::{CookieRecord, SameSitePolicy};

fn headers(values: &[&[u8]]) -> Vec<Vec<u8>> {
    values.iter().map(|v| v.to_vec()).collect()
}

fn pair(name: &str, value: &str) -> CookieRecord {
    CookieRecord::pair(name.to_string(), value.to_string())
}

#[test]
fn single_pair_lookup() {
    let jar = CookieJar::from_headers(&headers(&[b"name=value"])).unwrap();
    let r = jar.get("name").unwrap();
    assert_eq!(r.name, "name");
    assert_eq!(r.value, "value");
}

#[test]
fn scenario_two_pairs() {
    let jar = CookieJar::from_headers(&headers(&[b"a=1; b=2"])).unwrap();
    assert_eq!(jar.get("a").unwrap().value, "1");
    assert_eq!(jar.get("b").unwrap().value, "2");
    assert!(jar.delta().is_empty());
}

#[test]
fn scenario_no_header() {
    let jar = CookieJar::from_headers(&headers(&[])).unwrap();
    assert!(jar.iter().is_empty());
    assert!(jar.delta().is_empty());
    assert!(jar.get("a").is_none());
}

#[test]
fn scenario_remove_original() {
    let mut jar = CookieJar::from_headers(&headers(&[b"a=1"])).unwrap();
    jar.remove(pair("a", ""));
    let delta = jar.delta();
    assert_eq!(delta.len(), 1);
    match &delta[0] {
        DeltaEntry::Expire(c) => {
            assert_eq!(c.name, "a");
            assert_eq!(c.value, "");
            assert_eq!(c.max_age_seconds, Some(0));
        }
        DeltaEntry::Update(_) => panic!("expected a removal directive"),
    }
    assert!(jar.get("a").is_none());
    assert!(jar.iter().is_empty());
}

#[test]
fn scenario_add_to_empty() {
    let mut jar = CookieJar::from_headers(&headers(&[])).unwrap();
    jar.add(pair("x", "y"));
    let delta = jar.delta();
    assert_eq!(delta.len(), 1);
    match &delta[0] {
        DeltaEntry::Update(c) => {
            assert_eq!(c.name, "x");
            assert_eq!(c.value, "y");
        }
        DeltaEntry::Expire(_) => panic!("expected an addition"),
    }
    assert_eq!(jar.delta_header_values(), vec!["x=y".to_string()]);
}

#[test]
fn scenario_last_occurrence_wins() {
    let jar = CookieJar::from_headers(&headers(&[b"a=1; a=2"])).unwrap();
    assert_eq!(jar.get("a").unwrap().value, "2");
    assert!(jar.delta().is_empty());
    assert_eq!(jar.iter().len(), 1);
}

#[test]
fn later_header_value_wins() {
    let jar = CookieJar::from_headers(&headers(&[b"a=1", b"a=2"])).unwrap();
    assert_eq!(jar.get("a").unwrap().value, "2");
    assert!(jar.delta().is_empty());
}

#[test]
fn scenario_malformed_header_fails() {
    assert!(CookieJar::from_headers(&headers(&[b"a=%ff"])).is_err());
    assert!(CookieJar::from_headers(&headers(&[b"missingpair"])).is_err());
    assert!(CookieJar::from_headers(&headers(&[b"=1"])).is_err());
    assert!(CookieJar::from_headers(&headers(&[b"a=1", b"bad"])).is_err());
    assert!(CookieJar::from_headers(&headers(&[&[0u8, b'a', b'=', b'1']])).is_err());
}

#[test]
fn percent_decoding() {
    let jar = CookieJar::from_headers(&headers(&[b"foo=b%2Fr"])).unwrap();
    assert_eq!(jar.get("foo").unwrap().value, "b/r");
}

#[test]
fn blank_segments_and_whitespace() {
    let jar = CookieJar::from_headers(&headers(&[b"a=1; ; b=2"])).unwrap();
    assert_eq!(jar.get("a").unwrap().value, "1");
    assert_eq!(jar.get("b").unwrap().value, "2");
    let jar = CookieJar::from_headers(&headers(&[b" a = 1 "])).unwrap();
    assert_eq!(jar.get("a").unwrap().value, "1");
    let jar = CookieJar::from_headers(&headers(&[b"  "])).unwrap();
    assert!(jar.iter().is_empty());
}

#[test]
fn round_trip_encoded_pair() {
    let rec = pair("my name", "this; value%?");
    let encoded = encode_set_cookie(&rec);
    assert_eq!(encoded, "my%20name=this%3B%20value%25%3F");
    let jar = CookieJar::from_headers(&vec![encoded.into_bytes()]).unwrap();
    assert_eq!(jar.get("my name").unwrap().value, "this; value%?");
}

#[test]
fn remove_name_never_present() {
    let mut jar = CookieJar::from_headers(&headers(&[b"a=1"])).unwrap();
    jar.remove(pair("b", ""));
    assert!(jar.delta().is_empty());
    assert!(jar.get("b").is_none());
    assert_eq!(jar.get("a").unwrap().value, "1");
}

#[test]
fn add_then_remove_fresh_name() {
    let mut jar = CookieJar::new();
    jar.add(pair("x", "y"));
    jar.remove(pair("x", ""));
    assert!(jar.delta().is_empty());
    assert!(jar.get("x").is_none());
}

#[test]
fn add_then_remove_original_name() {
    let mut jar = CookieJar::from_headers(&headers(&[b"x=old"])).unwrap();
    jar.add(pair("x", "new"));
    jar.remove(pair("x", ""));
    let delta = jar.delta();
    assert_eq!(delta.len(), 1);
    assert!(matches!(&delta[0], DeltaEntry::Expire(c) if c.name == "x"));
}

#[test]
fn unchanged_readd_not_in_delta() {
    let mut jar = CookieJar::from_headers(&headers(&[b"a=1"])).unwrap();
    jar.add(pair("a", "1"));
    assert!(jar.delta().is_empty());
}

#[test]
fn overwrite_original_in_delta() {
    let mut jar = CookieJar::from_headers(&headers(&[b"a=1"])).unwrap();
    jar.add(pair("a", "2"));
    let delta = jar.delta();
    assert_eq!(delta.len(), 1);
    assert!(matches!(&delta[0], DeltaEntry::Update(c) if c.name == "a" && c.value == "2"));
    assert_eq!(jar.get("a").unwrap().value, "2");
}

#[test]
fn untouched_names_survive_mutations() {
    let mut jar = CookieJar::from_headers(&headers(&[b"a=1; b=2"])).unwrap();
    jar.add(pair("b", "3"));
    let records = jar.iter();
    assert_eq!(records.len(), 2);
    assert_eq!(records[0].name, "a");
    assert_eq!(records[0].value, "1");
    assert_eq!(records[1].name, "b");
    assert_eq!(records[1].value, "3");
    let delta = jar.delta();
    assert_eq!(delta.len(), 1);
    assert!(matches!(&delta[0], DeltaEntry::Update(c) if c.name == "b"));
}

#[test]
fn removal_clears_after_readd() {
    let mut jar = CookieJar::from_headers(&headers(&[b"a=1"])).unwrap();
    jar.remove(pair("a", ""));
    jar.add(pair("a", "2"));
    assert_eq!(jar.get("a").unwrap().value, "2");
    let delta = jar.delta();
    assert_eq!(delta.len(), 1);
    assert!(matches!(&delta[0], DeltaEntry::Update(c) if c.value == "2"));
}

#[test]
fn builder_chain() {
    let jar = CookieJar::builder().add(pair("a", "1")).add(pair("b", "2")).remove(
        pair("a", ""),
    ).build();
    assert!(jar.get("a").is_none());
    assert_eq!(jar.get("b").unwrap().value, "2");
    let jar2 = jar.into_builder().add(pair("c", "3")).build();
    assert_eq!(jar2.get("c").unwrap().value, "3");
}

#[test]
fn new_jar_is_empty() {
    let jar = CookieJar::new();
    assert!(jar.iter().is_empty());
    assert!(jar.delta().is_empty());
    assert!(jar.get("a").is_none());
}

#[test]
fn iteration_order_is_stable() {
    let mut jar = CookieJar::from_headers(&headers(&[b"a=1; b=2"])).unwrap();
    jar.add(pair("c", "3"));
    let names: Vec<String> = jar.iter().into_iter().map(|r| r.name).collect();
    assert_eq!(names, vec!["a".to_string(), "b".to_string(), "c".to_string()]);
    let names_again: Vec<String> = jar.iter().into_iter().map(|r| r.name).collect();
    assert_eq!(names, names_again);
}

#[test]
fn attributes_are_encoded() {
    let rec = CookieRecord {
        name: "s".to_string(),
        value: "v".to_string(),
        domain: Some("d.example".to_string()),
        path: Some("/p".to_string()),
        max_age_seconds: Some(60),
        secure: true,
        http_only: true,
        same_site: Some(SameSitePolicy::Lax),
    };
    let mut jar = CookieJar::new();
    jar.add(rec);
    let values = jar.delta_header_values();
    assert_eq!(values.len(), 1);
    assert_eq!(
        values[0],
        "s=v; HttpOnly; SameSite=Lax; Secure; Path=/p; Domain=d.example; Max-Age=60"
    );
}

#[test]
fn removal_directive_encoding() {
    let mut jar = CookieJar::from_headers(&headers(&[b"a=1"])).unwrap();
    jar.remove(pair("a", ""));
    assert_eq!(jar.delta_header_values(), vec!["a=; Max-Age=0".to_string()]);
}

#[test]
fn duplicate_and_same_record() {
    let rec = pair("a", "1");
    let copy = rec.duplicate();
    assert!(rec.same_record(&copy));
    assert!(!rec.same_record(&pair("a", "2")));
    assert!(!rec.same_record(&pair("b", "1")));
    let removal = rec.removal();
    assert_eq!(removal.name, "a");
    assert_eq!(removal.value, "");
    assert_eq!(removal.max_age_seconds, Some(0));
}
