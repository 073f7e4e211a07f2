use chembank::links::{ComponentOf, Components, ComponentStructure, StructureComponent};
use chembank::store::Store;
use chembank::table::{encode_record_onto, encode_table_onto, parse_table_exec};
use chembank::text::{contains_sub, i8_to_string, parse_i8, parse_u32, u32_to_string};
use chembank::transfer::write_bom;

#[test]
fn u32_rendering_is_plain_decimal() {
    assert_eq!(u32_to_string(0), "0".to_string());
    assert_eq!(u32_to_string(7), "7".to_string());
    assert_eq!(u32_to_string(1203), "1203".to_string());
    assert_eq!(u32_to_string(u32::MAX), "4294967295".to_string());
}

#[test]
fn i8_rendering_carries_the_sign() {
    assert_eq!(i8_to_string(0), "0".to_string());
    assert_eq!(i8_to_string(127), "127".to_string());
    assert_eq!(i8_to_string(-128), "-128".to_string());
    assert_eq!(i8_to_string(-1), "-1".to_string());
}

#[test]
fn u32_parsing_round_trips_and_bounds() {
    assert_eq!(parse_u32("0"), Some(0));
    assert_eq!(parse_u32("4294967295"), Some(u32::MAX));
    assert_eq!(parse_u32("4294967296"), None);
    assert_eq!(parse_u32("+42"), Some(42));
    assert_eq!(parse_u32("007"), Some(7));
    assert_eq!(parse_u32(""), None);
    assert_eq!(parse_u32("-1"), None);
    assert_eq!(parse_u32("12a"), None);
    assert_eq!(parse_u32("+"), None);
}

#[test]
fn i8_parsing_round_trips_and_bounds() {
    assert_eq!(parse_i8("127"), Some(127));
    assert_eq!(parse_i8("128"), None);
    assert_eq!(parse_i8("-128"), Some(-128));
    assert_eq!(parse_i8("-129"), None);
    assert_eq!(parse_i8("-0"), Some(0));
    assert_eq!(parse_i8("+5"), Some(5));
    assert_eq!(parse_i8("-"), None);
    assert_eq!(parse_i8(""), None);
}

#[test]
fn substring_search_finds_inner_runs() {
    assert!(contains_sub("hello world", "lo w"));
    assert!(contains_sub("abc", ""));
    assert!(contains_sub("abc", "abc"));
    assert!(!contains_sub("abc", "abcd"));
    assert!(!contains_sub("abc", "ac"));
}

#[test]
fn record_encoding_quotes_only_when_needed() {
    let mut out = String::new();
    let fields = vec!["plain".to_string(), "with,comma".to_string(), "with\"quote".to_string()];
    encode_record_onto(&fields, &mut out);
    assert_eq!(out, "plain,\"with,comma\",\"with\"\"quote\"\n".to_string());
}

#[test]
fn table_round_trips_through_text() {
    let rows = vec![
        vec!["a".to_string(), "".to_string(), "c,d".to_string()],
        vec!["x\ny".to_string(), "\"q\"".to_string(), "z".to_string()],
    ];
    let mut text = String::new();
    encode_table_onto(&rows, &mut text);
    let parsed = parse_table_exec(text.as_str(), 0).unwrap();
    assert_eq!(parsed, rows);
}

#[test]
fn parse_rejects_stray_quote_in_raw_field() {
    assert!(parse_table_exec("ab\"c\n", 0).is_none());
}

#[test]
fn parse_rejects_unterminated_quoted_field() {
    assert!(parse_table_exec("\"abc\n", 0).is_none());
}

#[test]
fn parse_rejects_missing_final_line_feed() {
    assert!(parse_table_exec("a,b", 0).is_none());
}

#[test]
fn parse_empty_text_is_an_empty_table() {
    assert_eq!(parse_table_exec("", 0), Some(vec![]));
}

#[test]
fn write_bom_prepends_the_mark() {
    let mut s = String::new();
    write_bom(&mut s);
    assert_eq!(s, "\u{feff}".to_string());
    assert_eq!(s.as_bytes(), &[0xEF, 0xBB, 0xBF]);
}

#[test]
fn links_follow_the_composition_joins() {
    let mut store = Store::new();
    let a = store.create_structure(Some("whole".to_string()), "AB".to_string(), None, 0).unwrap();
    let b = store.create_structure(Some("part".to_string()), "B".to_string(), None, 0).unwrap();
    store.set_component(a, b, 4);
    let outgoing = Components.follow(&store, a);
    assert_eq!(outgoing.len(), 1);
    assert_eq!(outgoing[0].component_id, b);
    let incoming = ComponentOf.follow(&store, b);
    assert_eq!(incoming.len(), 1);
    assert_eq!(incoming[0].structure_id, a);
    let edge = outgoing[0];
    let part = ComponentStructure.follow(&store, &edge).unwrap();
    assert_eq!(part.name, Some("part".to_string()));
    let whole = StructureComponent.follow(&store, &edge).unwrap();
    assert_eq!(whole.name, Some("whole".to_string()));
    let gone = ComponentStructure.follow(
        &store,
        &chembank::component::Model { structure_id: a, component_id: 99, count: 1 },
    );
    assert!(gone.is_none());
}
