//! Rooms as the outside sees them: their ids, who may connect, and the
//! requests that create them.
use vstd::prelude::*;
use vstd::string::StringExecFns;
use crate::chance::{random_below, thread_rng};
use crate::messages::ClientMessage;
use crate::types::GameSettings;

verus! {

/// Body of a room-creation request.
pub struct CreateGameRequest {
    pub settings: GameSettings,
}

/// Answer to a room-creation request.
pub struct CreateGameResponse {
    pub game_id: String,
}

/// Query parameters of a connection: credentials when a client resumes a seat.
pub struct ConnectParams {
    pub player_id: Option<u128>,
    pub secret: Option<String>,
}

/// Whether a new connection is let into a room.
#[derive(Clone, Copy, Debug, PartialEq, Eq, Structural)]
pub enum Admission {
    Accept,
    /// No room with that id (answered 404).
    NotFound,
    /// The room is full and the client is not resuming a seat (answered 403).
    Full,
}

/// The decision on a new connection: unknown rooms are refused, and a full
/// room (as many connected players as it allows) only takes clients that
/// come back with a player id.
pub fn admit_connection(
    game_exists: bool,
    resuming: bool,
    connected_players: usize,
    max_players: usize,
) -> (a: Admission)
    ensures
        a == (if !game_exists {
            Admission::NotFound
        } else if !resuming && connected_players >= max_players {
            Admission::Full
        } else {
            Admission::Accept
        }),
{
    if !game_exists {
        Admission::NotFound
    } else if !resuming && connected_players >= max_players {
        Admission::Full
    } else {
        Admission::Accept
    }
}

impl ConnectParams {
    /// The reconnection a client asks for: only when it gave both its player
    /// id and its secret.
    pub fn reconnect_message(self) -> (m: Option<ClientMessage>)
        ensures
            match (self.player_id, self.secret) {
                (Some(pid), Some(s)) => m matches Some(ClientMessage::Reconnect { player_id, secret })
                    && player_id == pid && secret@ == s@,
                _ => m is None,
            },
    {
        match (self.player_id, self.secret) {
            (Some(player_id), Some(secret)) => Some(ClientMessage::Reconnect { player_id, secret }),
            _ => None,
        }
    }
}

/// The decimal digit `d` as a character.
pub open spec fn digit_char(d: int) -> char {
    if d == 0 { '0' } else if d == 1 { '1' } else if d == 2 { '2' } else if d == 3 { '3' }
    else if d == 4 { '4' } else if d == 5 { '5' } else if d == 6 { '6' } else if d == 7 { '7' }
    else if d == 8 { '8' } else { '9' }
}

/// A room id: the number written with six decimal digits, zero-padded.
pub open spec fn game_id_text(n: nat) -> Seq<char> {
    seq![
        digit_char((n / 100000 % 10) as int),
        digit_char((n / 10000 % 10) as int),
        digit_char((n / 1000 % 10) as int),
        digit_char((n / 100 % 10) as int),
        digit_char((n / 10 % 10) as int),
        digit_char((n % 10) as int),
    ]
}

fn digit_text(d: u32) -> (s: &'static str)
    requires
        d < 10,
    ensures
        s@ == seq![digit_char(d as int)],
{
    if d == 0 {
        proof { reveal_strlit("0"); }
        assert("0"@ =~= seq!['0']);
        "0"
    } else if d == 1 {
        proof { reveal_strlit("1"); }
        assert("1"@ =~= seq!['1']);
        "1"
    } else if d == 2 {
        proof { reveal_strlit("2"); }
        assert("2"@ =~= seq!['2']);
        "2"
    } else if d == 3 {
        proof { reveal_strlit("3"); }
        assert("3"@ =~= seq!['3']);
        "3"
    } else if d == 4 {
        proof { reveal_strlit("4"); }
        assert("4"@ =~= seq!['4']);
        "4"
    } else if d == 5 {
        proof { reveal_strlit("5"); }
        assert("5"@ =~= seq!['5']);
        "5"
    } else if d == 6 {
        proof { reveal_strlit("6"); }
        assert("6"@ =~= seq!['6']);
        "6"
    } else if d == 7 {
        proof { reveal_strlit("7"); }
        assert("7"@ =~= seq!['7']);
        "7"
    } else if d == 8 {
        proof { reveal_strlit("8"); }
        assert("8"@ =~= seq!['8']);
        "8"
    } else {
        proof { reveal_strlit("9"); }
        assert("9"@ =~= seq!['9']);
        "9"
    }
}

/// The six-digit, zero-padded text of a room number.
pub fn format_game_id(n: u32) -> (s: String)
    requires
        n < 1_000_000,
    ensures
        s@ == game_id_text(n as nat),
{
    let mut s = String::new();
    s.append(digit_text(n / 100000 % 10));
    s.append(digit_text(n / 10000 % 10));
    s.append(digit_text(n / 1000 % 10));
    s.append(digit_text(n / 100 % 10));
    s.append(digit_text(n / 10 % 10));
    s.append(digit_text(n % 10));
    assert(s@ =~= game_id_text(n as nat));
    s
}

/// A candidate id for a new room: a random number below 999999, written
/// with six digits. The caller checks it against the rooms that exist.
pub fn propose_game_id() -> (s: String)
    ensures
        exists|n: nat| n < 999999 && s@ == #[trigger] game_id_text(n),
{
    let mut rng = thread_rng();
    let n = random_below(&mut rng, 999999);
    let s = format_game_id(n);
    assert(s@ == game_id_text(n as nat));
    s
}

} // verus!
