# crates_io (downloads and team repository)

A Verus library with the logic of two parts of the crates.io server:

- `src/version_order.rs`: the versions of a crate, newest first by SemVer
  precedence (through the `semver` crate), versions that are no valid SemVer
  last, as a stable sort; the split into the five newest and the rest.
- `src/downloads.rs`: the daily downloads of the five newest versions, by day
  and then by version, and the daily totals of the other versions, with the
  laws that relate them.
- `src/team_repo.rs`: the team and member data of the rust-lang team API, the
  address of a team and the rule on HTTP statuses.

`app/` holds the database queries (diesel) and the HTTP client (reqwest) that
feed the library and turn its results into JSON. `tests/` holds the tests.
