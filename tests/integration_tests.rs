use std::str::FromStr;

use entity_id::{unprefix_id, EntityId, TypedId, UuidBridge, DEFAULT_PREFIX};
use ulid::Ulid;
use uuid::Uuid;

#[derive(Debug, Clone, Copy, PartialEq, Eq, PartialOrd, Ord, Hash)]
struct User;

impl EntityId for User {
    const PREFIX: &'static str = "user";
}

impl UuidBridge for User {}

type UserId = TypedId<User>;

#[derive(Debug, Clone, Copy, PartialEq, Eq, PartialOrd, Ord, Hash)]
struct Account;

impl EntityId for Account {
    const PREFIX: &'static str = "billing_account";
}

type AccountId = TypedId<Account>;

#[test]
fn unprefix_id_returns_the_id_without_the_prefix() {
    let unprefixed = unprefix_id("todo_123");

    assert_eq!(unprefixed, "123");
}

#[test]
fn unprefix_id_returns_the_id_without_the_prefix_when_the_prefix_has_multiple_segments() {
    let unprefixed = unprefix_id("a_b_c_245");

    assert_eq!(unprefixed, "245");
}

#[test]
fn prefix_associated_const() {
    assert_eq!(User::PREFIX, "user");
    assert_eq!(UserId::prefix(), "user")
}

#[test]
fn integration_tests_new_generates_an_id_with_the_given_prefix() {
    let user_id = UserId::new();

    assert!(user_id.to_string().starts_with("user_"));
}

#[test]
fn integration_tests_unprefixed_returns_the_id_without_the_prefix() {
    let user_id = UserId::new();

    assert_eq!(
        user_id.unprefixed(),
        Ulid(user_id.value()).to_string().to_lowercase()
    );
}

#[test]
fn entity_id_from_uuid() {
    let uuid = Uuid::try_from("14a20d59-4d68-4bdf-aac6-8e1af037d183").unwrap();

    let user_id = UserId::from_uuid(uuid.into_bytes());

    assert_eq!(user_id.to_string(), "user_0mm86njkb89fftnhme3br3fmc3");
}

#[test]
fn uuid_from_entity_id() {
    let user_id = UserId::from_str("user_2wdncp35529bet2md0kzxrj0bs").unwrap();

    let uuid = Uuid::from_bytes(user_id.to_uuid());

    assert_eq!(
        uuid,
        Uuid::from_str("5c6d5961-94a2-4add-a151-a09ffb890179").unwrap()
    )
}

#[test]
fn unprefix_id_without_delimiter_returns_the_input() {
    assert_eq!(unprefix_id("0mm86njkb89fftnhme3br3fmc3"), "0mm86njkb89fftnhme3br3fmc3");
    assert_eq!(unprefix_id(""), "");
    assert_eq!(unprefix_id("user_"), "");
    assert_eq!(unprefix_id("_abc"), "abc");
}

#[test]
fn unprefix_id_strips_a_user_prefix() {
    assert_eq!(
        unprefix_id("user_2wdncp35529bet2md0kzxrj0bs"),
        "2wdncp35529bet2md0kzxrj0bs"
    );
}

#[test]
fn unprefix_id_is_idempotent() {
    for s in ["a_b_c_245", "todo_123", "plain", "", "x__", "é_ü_ok"] {
        let once = unprefix_id(s);
        assert_eq!(unprefix_id(once), once);
    }
    assert_eq!(unprefix_id("é_ü_ok"), "ok");
}

#[test]
fn to_string_then_parse_gives_the_identifier_back() {
    for _ in 0..20 {
        let user_id = UserId::new();
        let parsed = UserId::parse(&user_id.to_string()).unwrap();
        assert_eq!(parsed, user_id);
        assert_eq!(parsed.value(), user_id.value());
    }
    let account_id = AccountId::new();
    let text = account_id.to_string();
    assert!(text.starts_with("billing_account_"));
    assert_eq!(text.len(), "billing_account".len() + 1 + 26);
    assert_eq!(AccountId::parse(&text).unwrap(), account_id);
}

#[test]
fn parse_does_not_check_the_prefix() {
    let user_id = UserId::from_value(0x14a20d594d684bdfaac68e1af037d183);
    let parsed = UserId::parse("order_0mm86njkb89fftnhme3br3fmc3").unwrap();
    assert_eq!(parsed, user_id);
}

#[test]
fn parse_reports_decode_errors() {
    assert_eq!(UserId::parse("user_short"), Err(entity_id::DecodeError::InvalidLength));
    assert_eq!(
        UserId::parse("user_0mm86njkb89fftnhme3br3fmcu"),
        Err(entity_id::DecodeError::InvalidCharacter)
    );
    assert_eq!(
        UserId::parse("user_8zzzzzzzzzzzzzzzzzzzzzzzzz"),
        Err(entity_id::DecodeError::Overflow)
    );
}

#[test]
fn parse_accepts_uppercase_payloads() {
    let parsed = UserId::parse("USER_0MM86NJKB89FFTNHME3BR3FMC3").unwrap();
    assert_eq!(parsed.value(), 0x14a20d594d684bdfaac68e1af037d183);
}

#[test]
fn uuid_round_trips() {
    let bytes: [u8; 16] = [
        0x5c, 0x6d, 0x59, 0x61, 0x94, 0xa2, 0x4a, 0xdd, 0xa1, 0x51, 0xa0, 0x9f, 0xfb, 0x89, 0x01,
        0x79,
    ];
    let user_id = UserId::from_uuid(bytes);
    assert_eq!(user_id.value(), 0x5c6d596194a24adda151a09ffb890179);
    assert_eq!(user_id.to_uuid(), bytes);
    assert_eq!(UserId::from_uuid(user_id.to_uuid()), user_id);

    let fresh = UserId::new();
    assert_eq!(UserId::from_uuid(fresh.to_uuid()), fresh);
}

#[test]
fn identifiers_compare_by_value() {
    let a = UserId::from_value(1);
    let b = UserId::from_value(2);
    assert!(a < b);
    assert_eq!(a, UserId::from_value(1));
    assert_eq!(a.clone(), a);
}

#[test]
fn later_identifiers_sort_after_earlier_ones() {
    let earlier = UserId::from_value(Ulid::from_parts(1_700_000_000_000, u128::MAX).0);
    let later = UserId::from_value(Ulid::from_parts(1_700_000_000_001, 0).0);
    assert!(earlier.value() < later.value());
    assert!(earlier.to_string() < later.to_string());
    assert!(earlier.unprefixed() < later.unprefixed());

    let first = UserId::new();
    let second = UserId::new();
    assert!(Ulid(first.value()).timestamp_ms() <= Ulid(second.value()).timestamp_ms());
}

#[test]
fn default_prefix_is_entity() {
    assert_eq!(DEFAULT_PREFIX, "entity");
}

#[test]
fn with_prefix_writes_the_given_prefix() {
    let user_id = UserId::from_value(0x14a20d594d684bdfaac68e1af037d183);
    assert_eq!(user_id.with_prefix("user"), "user_0mm86njkb89fftnhme3br3fmc3");
    assert_eq!(user_id.with_prefix(""), "_0mm86njkb89fftnhme3br3fmc3");
    assert_eq!(user_id.unprefixed(), "0mm86njkb89fftnhme3br3fmc3");
}

#[test]
fn try_from_reads_str_and_string() {
    let expected = UserId::from_value(0x5c6d596194a24adda151a09ffb890179);
    assert_eq!(UserId::try_from("user_2wdncp35529bet2md0kzxrj0bs"), Ok(expected));
    assert_eq!(
        UserId::try_from(String::from("user_2wdncp35529bet2md0kzxrj0bs")),
        Ok(expected)
    );
    assert_eq!(
        UserId::try_from("user_2wdncp35529bet2md0kzxrj0b"),
        Err(entity_id::DecodeError::InvalidLength)
    );
}

#[derive(Debug, Clone, Copy, PartialEq, Eq, PartialOrd, Ord, Hash)]
struct Thing;

impl EntityId for Thing {
    const PREFIX: &'static str = DEFAULT_PREFIX;
}

#[test]
fn from_str_agrees_with_try_from() {
    for s in [
        "user_2wdncp35529bet2md0kzxrj0bs",
        "user_short",
        "user_0mm86njkb89fftnhme3br3fmcu",
        "user_8zzzzzzzzzzzzzzzzzzzzzzzzz",
    ] {
        assert_eq!(UserId::from_str(s), UserId::try_from(s));
        assert_eq!(UserId::from_str(s), UserId::try_from(s.to_string()));
        assert_eq!(UserId::from_str(s), UserId::parse(s));
    }
}

#[test]
fn default_prefix_kind_writes_entity() {
    let id = TypedId::<Thing>::from_value(0x14a20d594d684bdfaac68e1af037d183);
    assert_eq!(TypedId::<Thing>::prefix(), "entity");
    assert_eq!(id.to_string(), "entity_0mm86njkb89fftnhme3br3fmc3");
}
