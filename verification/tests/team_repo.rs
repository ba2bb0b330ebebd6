use crates_io::team_repo::{check_status, team_url, Member, Team, TeamRepo, TeamRepoError};

#[test]
fn url_of_a_team() {
    assert_eq!(team_url("crates-io"), "https://team-api.infra.rust-lang.org/v1/teams/crates-io.json");
    assert_eq!(team_url(""), "https://team-api.infra.rust-lang.org/v1/teams/.json");
}

#[test]
fn error_statuses() {
    assert_eq!(check_status(404), Err(TeamRepoError::Status(404)));
    assert_eq!(check_status(400), Err(TeamRepoError::Status(400)));
    assert_eq!(check_status(500), Err(TeamRepoError::Status(500)));
    assert_eq!(check_status(599), Err(TeamRepoError::Status(599)));
}

#[test]
fn other_statuses() {
    assert_eq!(check_status(200), Ok(()));
    assert_eq!(check_status(304), Ok(()));
    assert_eq!(check_status(399), Ok(()));
    assert_eq!(check_status(600), Ok(()));
    assert_eq!(check_status(100), Ok(()));
}

struct FixedTeams;

impl TeamRepo for FixedTeams {
    fn get_team(&self, name: &str) -> Result<Team, TeamRepoError> {
        if name == "crates-io" {
            Ok(Team {
                name: "crates-io".to_string(),
                kind: "team".to_string(),
                members: vec![Member {
                    name: "Ferris".to_string(),
                    github: "ferris".to_string(),
                    github_id: 1,
                    is_lead: true,
                }],
            })
        } else {
            Err(TeamRepoError::Status(404))
        }
    }
}

fn lead_of(repo: &dyn TeamRepo, name: &str) -> Option<String> {
    let team = repo.get_team(name).ok()?;
    team.members.into_iter().find(|m| m.is_lead).map(|m| m.github)
}

#[test]
fn a_repo_can_be_supplied() {
    assert_eq!(lead_of(&FixedTeams, "crates-io"), Some("ferris".to_string()));
    assert_eq!(lead_of(&FixedTeams, "compiler"), None);
    assert_eq!(FixedTeams.get_team("x"), Err(TeamRepoError::Status(404)));
}
