//! Requests and responses of the service around the rating engine, and the
//! small decisions taken on them: token expiry, which API key a request
//! carries, paging defaults, and how an update request changes a record.
use vstd::prelude::*;
use crate::error::ApiError;

verus! {

/// How long an issued token stays valid, in seconds (seven days).
pub const DEFAULT_TOKEN_VALIDITY: i64 = 604800;

/// Page size of a listing when the request names none.
pub const DEFAULT_LIMIT: i32 = 25;

/// Offset of a listing when the request names none.
pub const DEFAULT_OFFSET: i32 = 0;

/// What a token says: the player it was issued to and when it expires
/// (seconds since the epoch).
#[derive(Clone, Copy, Debug, PartialEq, Eq, Structural)]
pub struct Claims {
    pub id: i32,
    pub exp: i64,
}

impl Claims {
    /// The claims of a token issued to player `id` at time `now`.
    pub fn new(id: i32, now: i64) -> (r: Claims)
        requires
            now <= i64::MAX - DEFAULT_TOKEN_VALIDITY,
        ensures
            r.id == id,
            r.exp == now + DEFAULT_TOKEN_VALIDITY,
    {
        Claims { id, exp: now + DEFAULT_TOKEN_VALIDITY }
    }
}

/// An authenticated request's token: the player, the expiry and the key as
/// it was sent.
#[derive(Debug)]
pub struct ApiToken {
    pub player_id: i32,
    pub exp: i64,
    pub raw: String,
}

impl ApiToken {
    /// The API key of a request, which must carry exactly one.
    pub fn single_key(keys: &Vec<String>) -> (r: Result<String, ApiError>)
        ensures
            r is Ok <==> keys@.len() == 1,
            match r {
                Ok(k) => k@ == keys@[0]@,
                Err(e) => e == ApiError::BadRequest,
            },
    {
        if keys.len() != 1 {
            return Err(ApiError::BadRequest);
        }
        Ok(keys[0].clone())
    }

    /// The token for the key `raw`, given what decoding it gave: its claims,
    /// or `None` where it could not be decoded or has expired.
    pub fn from_decoded(raw: String, decoded: Option<Claims>) -> (r: Result<ApiToken, ApiError>)
        ensures
            r is Ok <==> decoded is Some,
            match r {
                Ok(t) => t.player_id == decoded->Some_0.id && t.exp == decoded->Some_0.exp && t.raw
                    == raw,
                Err(e) => e == ApiError::Unauthorized,
            },
    {
        match decoded {
            Some(c) => Ok(ApiToken { player_id: c.id, exp: c.exp, raw }),
            None => Err(ApiError::Unauthorized),
        }
    }
}

/// A login attempt.
#[derive(Debug)]
pub struct LoginRequest {
    pub email: String,
    pub password: String,
}

/// The token issued on a successful login.
#[derive(Debug)]
pub struct LoginResponse {
    pub token: String,
}

/// A change of password, which names the old one.
#[derive(Debug)]
pub struct ChangePasswordRequest {
    pub email: String,
    pub old_password: String,
    pub new_password: String,
}

/// One page of a listing.
#[derive(Debug)]
pub struct PaginatedResponse<T> {
    pub limit: i32,
    pub offset: i32,
    pub data: Vec<T>,
}

impl<T> PaginatedResponse<T> {
    pub fn new(limit: i32, offset: i32, data: Vec<T>) -> (r: PaginatedResponse<T>)
        ensures
            r.limit == limit,
            r.offset == offset,
            r.data@ == data@,
    {
        PaginatedResponse { limit, offset, data }
    }
}

/// Paging of a listing of games as requested.
#[derive(Clone, Copy, Debug, PartialEq, Eq, Structural)]
pub struct GameRequestParams {
    pub limit: Option<i32>,
    pub offset: Option<i32>,
}

impl GameRequestParams {
    /// The page size: as requested, or [`DEFAULT_LIMIT`].
    pub fn limit_or_default(&self) -> (r: i32)
        ensures
            r == match self.limit {
                Some(l) => l,
                None => DEFAULT_LIMIT,
            },
    {
        match self.limit {
            Some(l) => l,
            None => DEFAULT_LIMIT,
        }
    }

    /// The offset: as requested, or [`DEFAULT_OFFSET`].
    pub fn offset_or_default(&self) -> (r: i32)
        ensures
            r == match self.offset {
                Some(o) => o,
                None => DEFAULT_OFFSET,
            },
    {
        match self.offset {
            Some(o) => o,
            None => DEFAULT_OFFSET,
        }
    }
}

/// A deck as stored.
#[derive(Debug)]
pub struct Deck {
    pub id: i32,
    pub alias: String,
    pub commander: String,
    pub player_id: i32,
    pub active: bool,
}

/// A deck to be stored.
#[derive(Debug)]
pub struct NewDeck {
    pub alias: String,
    pub commander: String,
    pub player_id: i32,
    pub active: bool,
}

/// A request to register a deck.
#[derive(Debug)]
pub struct DeckRequest {
    pub player_id: i32,
    pub alias: String,
    pub commander: String,
}

impl DeckRequest {
    /// The deck to store: as requested, and active.
    pub fn into_new_deck(self) -> (r: NewDeck)
        ensures
            r.alias@ == self.alias@,
            r.commander@ == self.commander@,
            r.player_id == self.player_id,
            r.active,
    {
        NewDeck {
            alias: self.alias,
            commander: self.commander,
            player_id: self.player_id,
            active: true,
        }
    }
}

/// A request to change a deck: each field that is given replaces the
/// deck's.
#[derive(Debug)]
pub struct UpdateDeckRequest {
    pub id: i32,
    pub alias: Option<String>,
    pub commander: Option<String>,
    pub active: Option<bool>,
}

/// The string as changed by an optional replacement.
pub open spec fn replaced(current: Seq<char>, replacement: Option<String>) -> Seq<char> {
    match replacement {
        Some(s) => s@,
        None => current,
    }
}

impl Deck {
    /// The deck as changed by the request; its identifier and owner stay.
    pub fn update_from(self, req: UpdateDeckRequest) -> (r: Deck)
        ensures
            r.id == self.id,
            r.player_id == self.player_id,
            r.alias@ == replaced(self.alias@, req.alias),
            r.commander@ == replaced(self.commander@, req.commander),
            r.active == match req.active {
                Some(a) => a,
                None => self.active,
            },
    {
        let alias = match req.alias {
            Some(a) => a,
            None => self.alias,
        };
        let commander = match req.commander {
            Some(c) => c,
            None => self.commander,
        };
        let active = match req.active {
            Some(a) => a,
            None => self.active,
        };
        Deck { id: self.id, alias, commander, player_id: self.player_id, active }
    }
}

/// A player as stored; `password` is the hash of the password.
#[derive(Debug)]
pub struct Player {
    pub id: i32,
    pub alias: String,
    pub email: String,
    pub password: String,
}

/// A request to register a player.
#[derive(Debug)]
pub struct CreatePlayerRequest {
    pub alias: String,
    pub email: String,
    pub password: String,
}

/// A request to change a player: each field that is given replaces the
/// player's.
#[derive(Debug)]
pub struct UpdatePlayerRequest {
    pub id: i32,
    pub alias: Option<String>,
    pub email: Option<String>,
}

/// What is shown of a player.
#[derive(Debug)]
pub struct PlayerResponse {
    pub id: i32,
    pub alias: String,
}

impl Player {
    /// The player as changed by the request; identifier and password stay.
    pub fn update_from(self, req: UpdatePlayerRequest) -> (r: Player)
        ensures
            r.id == self.id,
            r.password@ == self.password@,
            r.alias@ == replaced(self.alias@, req.alias),
            r.email@ == replaced(self.email@, req.email),
    {
        let alias = match req.alias {
            Some(a) => a,
            None => self.alias,
        };
        let email = match req.email {
            Some(e) => e,
            None => self.email,
        };
        Player { id: self.id, alias, email, password: self.password }
    }

    /// What is shown of the player: identifier and alias.
    pub fn into_player_response(self) -> (r: PlayerResponse)
        ensures
            r.id == self.id,
            r.alias@ == self.alias@,
    {
        PlayerResponse { id: self.id, alias: self.alias }
    }
}

} // verus!
