use ledger_samples::ids::{
    parse, AccountId, AssetDefinitionId, DomainId, Identifier, IdentifierKind, ParseError,
    TriggerId,
};

fn text_of(id: &Identifier) -> String {
    String::from_utf8(id.render()).unwrap()
}

#[test]
fn asset_definition_parses_and_renders() {
    let id = parse("rose#wonderland", IdentifierKind::AssetDefinition).unwrap();
    match &id {
        Identifier::AssetDefinition(a) => {
            assert_eq!(a.name.as_bytes(), b"rose");
            assert_eq!(a.domain.name.as_bytes(), b"wonderland");
        }
        _ => panic!("wrong kind"),
    }
    assert_eq!(text_of(&id), "rose#wonderland");
}

#[test]
fn account_parses() {
    let a = AccountId::parse("alice@wonderland").unwrap();
    assert_eq!(a.signatory.as_bytes(), b"alice");
    assert_eq!(a.domain.name.as_bytes(), b"wonderland");
    assert_eq!(a.to_text(), b"alice@wonderland".to_vec());
}

#[test]
fn empty_name_part_is_invalid() {
    assert_eq!(
        AssetDefinitionId::parse("#wonderland").unwrap_err(),
        ParseError::InvalidName
    );
    assert_eq!(
        AccountId::parse("alice@").unwrap_err(),
        ParseError::InvalidName
    );
}

#[test]
fn extra_separator_is_malformed() {
    assert_eq!(
        AssetDefinitionId::parse("rose@wonderland#x").unwrap_err(),
        ParseError::MalformedIdentifier
    );
    assert_eq!(
        AssetDefinitionId::parse("rose#wonder#land").unwrap_err(),
        ParseError::MalformedIdentifier
    );
}

#[test]
fn missing_separator_is_malformed() {
    assert_eq!(
        AccountId::parse("alice").unwrap_err(),
        ParseError::MalformedIdentifier
    );
    assert_eq!(
        AccountId::parse("alice#wonderland").unwrap_err(),
        ParseError::MalformedIdentifier
    );
}

#[test]
fn whitespace_is_invalid() {
    assert_eq!(
        DomainId::parse("won derland").unwrap_err(),
        ParseError::InvalidName
    );
    assert_eq!(DomainId::parse("").unwrap_err(), ParseError::InvalidName);
    assert_eq!(
        AccountId::parse("al ice@wonderland").unwrap_err(),
        ParseError::InvalidName
    );
}

#[test]
fn separators_are_not_names() {
    assert_eq!(DomainId::parse("a#b").unwrap_err(), ParseError::InvalidName);
    assert_eq!(TriggerId::parse("a@b").unwrap_err(), ParseError::InvalidName);
}

#[test]
fn text_round_trips_for_every_kind() {
    let cases = [
        ("Hey", IdentifierKind::Domain),
        ("mint_rose", IdentifierKind::Trigger),
        ("alice@wonderland", IdentifierKind::Account),
        ("rose#wonderland", IdentifierKind::AssetDefinition),
        ("ünï@cödé", IdentifierKind::Account),
    ];
    for (raw, kind) in cases {
        let id = parse(raw, kind).unwrap();
        assert_eq!(id.kind(), kind);
        assert_eq!(text_of(&id), raw);
        let again = parse(&text_of(&id), kind).unwrap();
        assert_eq!(again.render(), id.render());
    }
}

#[test]
fn domain_text_is_the_name() {
    let d = DomainId::parse("wonderland").unwrap();
    assert_eq!(d.to_text(), b"wonderland".to_vec());
    let t = TriggerId::parse("mint_rose").unwrap();
    assert_eq!(t.to_text(), b"mint_rose".to_vec());
}
