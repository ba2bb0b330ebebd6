//! The data of the <https://github.com/rust-lang/team/> repository, as
//! served by its API, and the rules for fetching one team.
//!
//! The [TeamRepo] trait abstracts away the HTTP client, so that tests can
//! supply teams of their own.

use vstd::prelude::*;

verus! {

/// A team of the rust-lang organisation.
#[derive(Debug, Clone, PartialEq, Eq)]
pub struct Team {
    pub name: String,
    pub kind: String,
    pub members: Vec<Member>,
}

/// A member of a team.
#[derive(Debug, Clone, PartialEq, Eq)]
pub struct Member {
    pub name: String,
    pub github: String,
    pub github_id: i32,
    pub is_lead: bool,
}

/// Why a team could not be fetched.
#[derive(Debug, Clone, PartialEq, Eq)]
pub enum TeamRepoError {
    /// The server answered with a client or server error status.
    Status(u16),
    /// The request could not be sent or its answer not be read.
    Request(String),
    /// The answer is no team in the expected JSON form.
    Decode(String),
}

/// Something that can fetch a team by its name.
pub trait TeamRepo {
    fn get_team(&self, name: &str) -> Result<Team, TeamRepoError>;
}

/// The address of the team API.
pub open spec fn team_api_prefix() -> Seq<char> {
    "https://team-api.infra.rust-lang.org/v1/teams/"@
}

/// The address at which the team API serves the team `name`.
pub open spec fn spec_team_url(name: Seq<char>) -> Seq<char> {
    team_api_prefix() + name + ".json"@
}

/// The address at which the team API serves the team `name`.
pub fn team_url(name: &str) -> (url: String)
    ensures
        url@ == spec_team_url(name@),
        url@ == "https://team-api.infra.rust-lang.org/v1/teams/"@ + name@ + ".json"@,
{
    let mut url = String::from_str("https://team-api.infra.rust-lang.org/v1/teams/");
    url.append(name);
    url.append(".json");
    url
}

/// An HTTP status is an error: a client error (400 to 499) or a server
/// error (500 to 599).
pub open spec fn is_error_status(status: u16) -> bool {
    400 <= status < 600
}

/// Accepts an answer of the team API by its HTTP status: an error status
/// is an error, every other status lets the answer be read.
pub fn check_status(status: u16) -> (r: Result<(), TeamRepoError>)
    ensures
        r is Err <==> is_error_status(status),
        r is Err ==> r == Err::<(), TeamRepoError>(TeamRepoError::Status(status)),
        r is Err <==> 400 <= status && status <= 599,
        r is Ok <==> status < 400 || status > 599,
{
    if 400 <= status && status < 600 {
        Err(TeamRepoError::Status(status))
    } else {
        Ok(())
    }
}

/// Law: the address of a team is the 46 characters of the API prefix, then
/// the whole name unchanged, then the 5 characters `.json`.
pub proof fn law_team_url(name: Seq<char>, url: Seq<char>)
    requires
        url == spec_team_url(name),
    ensures
        url.len() == 46 + name.len() + 5,
        url.subrange(0, 46) == "https://team-api.infra.rust-lang.org/v1/teams/"@,
        url.subrange(46, 46 + name.len() as int) == name,
        url.subrange(46 + name.len() as int, url.len() as int) == ".json"@,
{
    reveal_strlit("https://team-api.infra.rust-lang.org/v1/teams/");
    reveal_strlit(".json");
    let prefix = "https://team-api.infra.rust-lang.org/v1/teams/"@;
    assert(prefix.len() == 46);
    assert(url.subrange(0, 46) =~= prefix);
    assert(url.subrange(46, 46 + name.len() as int) =~= name);
    assert(url.subrange(46 + name.len() as int, url.len() as int) =~= ".json"@);
}

/// Law: fetching a team fails on the status exactly when the status is a
/// client error or a server error, 400 to 599, and the error carries the
/// status.
pub proof fn law_check_status(status: u16, r: Result<(), TeamRepoError>)
    requires
        r is Err <==> is_error_status(status),
        r is Err ==> r == Err::<(), TeamRepoError>(TeamRepoError::Status(status)),
    ensures
        r is Err <==> 400 <= status && status <= 599,
        r is Ok <==> status < 400 || status >= 600,
        400 <= status && status <= 599 ==> r == Err::<(), TeamRepoError>(TeamRepoError::Status(status)),
{
}

} // verus!
