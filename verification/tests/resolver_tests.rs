use qcd::error::QcdError;
use qcd::resolver::IdxAlias;
use qcd::store::{StdRow, StdTable};
use qcd::text::{parse_u32, u32_to_dec};

fn table_with_aliases(aliases: &[&str]) -> StdTable {
    let mut t = StdTable::new();
    let mut idx: u32 = 1;
    for a in aliases {
        let r = StdRow {
            id: None,
            idx,
            directory: format!("/dir/{}", a),
            alias: a.to_string(),
        };
        assert_eq!(t.add_std_dir(&r), Ok(idx));
        idx += 1;
    }
    t
}

#[test]
fn token_classification() {
    assert_eq!(IdxAlias::from("42"), IdxAlias::Idx(42));
    assert_eq!(IdxAlias::from("+7"), IdxAlias::Idx(7));
    assert_eq!(IdxAlias::from("0"), IdxAlias::Idx(0));
    assert_eq!(IdxAlias::from("4294967295"), IdxAlias::Idx(u32::MAX));
    // too large for u32: treated as an alias
    assert_eq!(IdxAlias::from("4294967296"), IdxAlias::Alias("4294967296".to_string()));
    assert_eq!(IdxAlias::from("-1"), IdxAlias::Alias("-1".to_string()));
    assert_eq!(IdxAlias::from(""), IdxAlias::Alias("".to_string()));
    assert_eq!(IdxAlias::from("docs"), IdxAlias::Alias("docs".to_string()));
    assert!(IdxAlias::from("docs").is_alias());
    assert!(!IdxAlias::from("3").is_alias());
}

#[test]
fn colname_query_pairs() {
    let (col, q) = IdxAlias::Idx(42).to_colname_query();
    assert_eq!(col, "idx".to_string());
    assert_eq!(q, "42".to_string());
    let (col, q) = IdxAlias::Alias("docs".to_string()).to_colname_query();
    assert_eq!(col, "alias".to_string());
    assert_eq!(q, "docs".to_string());
}

#[test]
fn decimal_parse_and_format() {
    assert_eq!(parse_u32("0"), Some(0));
    assert_eq!(parse_u32("123"), Some(123));
    assert_eq!(parse_u32("+123"), Some(123));
    assert_eq!(parse_u32("4294967295"), Some(u32::MAX));
    assert_eq!(parse_u32("4294967296"), None);
    assert_eq!(parse_u32(""), None);
    assert_eq!(parse_u32("+"), None);
    assert_eq!(parse_u32("++1"), None);
    assert_eq!(parse_u32("12a"), None);
    assert_eq!(parse_u32(" 12"), None);

    assert_eq!(u32_to_dec(0), "0".to_string());
    assert_eq!(u32_to_dec(7), "7".to_string());
    assert_eq!(u32_to_dec(1234567), "1234567".to_string());
    assert_eq!(u32_to_dec(u32::MAX), "4294967295".to_string());
}

#[test]
fn fuzzy_prefix_resolution() {
    let t = table_with_aliases(&["pets", "people"]);
    // a shared prefix of two aliases is ambiguous
    assert_eq!(t.find_entry(&IdxAlias::Alias("pe".to_string())), Err(QcdError::Ambiguous));
    // a prefix of exactly one alias resolves to it
    let fnd = t.find_entry(&IdxAlias::Alias("peo".to_string())).unwrap();
    assert_eq!(fnd.alias, "people".to_string());
    // an unknown alias is NotFound
    assert_eq!(t.find_entry(&IdxAlias::Alias("dogs".to_string())), Err(QcdError::NotFound));
}

#[test]
fn exact_alias_wins_over_longer_matches() {
    let t = table_with_aliases(&["people", "peoples"]);
    // "people" matches both rows as a prefix, but equals the first alias
    // exactly, so the exact match short-circuits past the ambiguity
    let fnd = t.find_entry(&IdxAlias::Alias("people".to_string())).unwrap();
    assert_eq!(fnd.alias, "people".to_string());
    assert_eq!(fnd.idx, 1);
}

#[test]
fn numeric_tokens_resolve_by_idx() {
    let mut t = table_with_aliases(&["42mushrooms"]);
    let r = StdRow {
        id: None,
        idx: 42,
        directory: "/by/idx".to_string(),
        alias: "fortytwo".to_string(),
    };
    assert_eq!(t.add_std_dir(&r), Ok(42));
    // a numeric token never matches aliases, only the idx column
    let fnd = t.find_entry(&IdxAlias::from("42")).unwrap();
    assert_eq!(fnd.directory, "/by/idx".to_string());
}
