//! Where the league data is fetched from, and the defaults of optional fields.

use vstd::prelude::*;

verus! {

/// The root of the fantasy sports API.
pub open spec fn base_url() -> Seq<char> {
    "https://games.espn.com/ffl/api/v2/"@
}

/// The character of a single decimal digit.
pub open spec fn digit_char(d: nat) -> char {
    if d == 0 { '0' } else if d == 1 { '1' } else if d == 2 { '2' } else if d == 3 { '3' }
    else if d == 4 { '4' } else if d == 5 { '5' } else if d == 6 { '6' } else if d == 7 { '7' }
    else if d == 8 { '8' } else { '9' }
}

/// The decimal representation of `n`, without leading zeros.
pub open spec fn decimal_digits(n: nat) -> Seq<char>
    decreases n,
{
    if n < 10 {
        seq![digit_char(n)]
    } else {
        decimal_digits(n / 10).push(digit_char(n % 10))
    }
}

/// The URL of an API resource: the base, the resource path, the league id.
pub open spec fn league_url(path: Seq<char>, league_id: u64) -> Seq<char> {
    base_url() + path + decimal_digits(league_id as nat)
}

/// Relies on std's `format!`, which writes strings as they are and a `u64` in
/// decimal without leading zeros.
#[verifier::external_body]
fn format_url(base: &str, path: &str, league_id: u64) -> (r: String)
    ensures
        r@ == base@ + path@ + decimal_digits(league_id as nat),
{
    format!("{0}{1}{2}", base, path, league_id)
}

/// The URL under which the league's teams and their records are retrieved.
pub fn retrieve_league_data(league_id: u64) -> (r: String)
    ensures
        r@ == league_url("teams?leagueId="@, league_id),
{
    format_url("https://games.espn.com/ffl/api/v2/", "teams?leagueId=", league_id)
}

/// The URL under which the league's schedule history is retrieved.
pub fn retrieve_league_schedule(league_id: u64) -> (r: String)
    ensures
        r@ == league_url("leagueSchedules?leagueId="@, league_id),
{
    format_url("https://games.espn.com/ffl/api/v2/", "leagueSchedules?leagueId=", league_id)
}

/// The all-play win count of a team whose count is not given.
pub fn default_int() -> (r: u32)
    ensures
        r == 0,
{
    0
}

/// The league size before it has been counted.
pub fn default_usize() -> (r: usize)
    ensures
        r == 0,
{
    0
}

} // verus!
