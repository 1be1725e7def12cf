use hawthorn::api::{
    ApiToken, Claims, Deck, DeckRequest, GameRequestParams, PaginatedResponse, Player,
    UpdateDeckRequest, UpdatePlayerRequest, DEFAULT_LIMIT, DEFAULT_OFFSET,
    DEFAULT_TOKEN_VALIDITY,
};
use hawthorn::error::{ApiError, ErrorResponse};

#[test]
fn token_expires_after_seven_days() {
    let c = Claims::new(7, 1_000_000);
    assert_eq!(c, Claims { id: 7, exp: 1_604_800 });
    assert_eq!(DEFAULT_TOKEN_VALIDITY, 7 * 24 * 60 * 60);
}

#[test]
fn a_request_must_carry_exactly_one_key() {
    assert_eq!(ApiToken::single_key(&vec![]).unwrap_err(), ApiError::BadRequest);
    assert_eq!(
        ApiToken::single_key(&vec!["a".to_string(), "b".to_string()]).unwrap_err(),
        ApiError::BadRequest
    );
    assert_eq!(ApiToken::single_key(&vec!["key".to_string()]).unwrap(), "key");
}

#[test]
fn undecodable_key_is_unauthorized() {
    let t = ApiToken::from_decoded("k".to_string(), Some(Claims { id: 3, exp: 99 })).unwrap();
    assert_eq!((t.player_id, t.exp, t.raw.as_str()), (3, 99, "k"));
    assert_eq!(
        ApiToken::from_decoded("k".to_string(), None).unwrap_err(),
        ApiError::Unauthorized
    );
}

#[test]
fn every_error_has_its_status() {
    let cases = [
        (ApiError::NotFound, 404, "Not Found"),
        (ApiError::BadRequest, 400, "Bad Request"),
        (ApiError::InternalServerError, 500, "Internal Server Error"),
        (ApiError::Unauthorized, 401, "Unauthorized"),
    ];
    for (e, code, message) in cases {
        assert_eq!(e.status_code(), code);
        let body = ErrorResponse::from_error(e);
        assert_eq!(body.code, code);
        assert_eq!(body.message, message);
    }
}

#[test]
fn paging_defaults() {
    let none = GameRequestParams { limit: None, offset: None };
    assert_eq!((none.limit_or_default(), none.offset_or_default()), (25, 0));
    assert_eq!((DEFAULT_LIMIT, DEFAULT_OFFSET), (25, 0));
    let given = GameRequestParams { limit: Some(5), offset: Some(10) };
    assert_eq!((given.limit_or_default(), given.offset_or_default()), (5, 10));
    let page = PaginatedResponse::new(5, 10, vec![1, 2]);
    assert_eq!((page.limit, page.offset, page.data), (5, 10, vec![1, 2]));
}

#[test]
fn new_decks_are_active() {
    let d = DeckRequest { player_id: 2, alias: "Goblins".to_string(), commander: "Krenko".to_string() }
        .into_new_deck();
    assert!(d.active);
    assert_eq!((d.player_id, d.alias.as_str(), d.commander.as_str()), (2, "Goblins", "Krenko"));
}

#[test]
fn deck_update_replaces_given_fields_only() {
    let deck = Deck {
        id: 1,
        alias: "Old".to_string(),
        commander: "Atraxa".to_string(),
        player_id: 4,
        active: true,
    };
    let d = deck.update_from(UpdateDeckRequest {
        id: 1,
        alias: Some("New".to_string()),
        commander: None,
        active: Some(false),
    });
    assert_eq!((d.id, d.player_id, d.alias.as_str(), d.commander.as_str(), d.active), (1, 4, "New", "Atraxa", false));
}

#[test]
fn player_update_keeps_identifier_and_password() {
    let p = Player {
        id: 8,
        alias: "ann".to_string(),
        email: "ann@example.org".to_string(),
        password: "hash".to_string(),
    };
    let p = p.update_from(UpdatePlayerRequest { id: 8, alias: None, email: Some("a@example.org".to_string()) });
    assert_eq!((p.id, p.alias.as_str(), p.email.as_str(), p.password.as_str()), (8, "ann", "a@example.org", "hash"));
    let r = p.into_player_response();
    assert_eq!((r.id, r.alias.as_str()), (8, "ann"));
}
