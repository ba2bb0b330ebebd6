//! The download counts of a crate: the daily downloads of its five newest
//! versions one by one, and the daily totals of all its other versions.
//!
//! Dates are day numbers (days from the start of the common era), so that
//! a later day is a larger number.

use vstd::prelude::*;

use crate::version_order::{
    is_newest_first, latest_len, listed_in_order, sort_versions, split_latest, version_ids,
    VersionRecord,
};


verus! {

/// The downloads of one version on one day.
#[derive(Clone, Copy, Debug, PartialEq, Eq, Structural)]
pub struct VersionDownload {
    pub version_id: i32,
    pub downloads: i32,
    pub date: i32,
}

/// The downloads of all the listed versions together on one day.
#[derive(Clone, Copy, Debug, PartialEq, Eq, Structural)]
pub struct ExtraDownload {
    pub date: i32,
    pub downloads: i64,
}

/// Why the download counts could not be given.
#[derive(Clone, Copy, Debug, PartialEq, Eq, Structural)]
pub enum DownloadsError {
    /// The downloads of one day, summed, do not fit in an `i64`.
    TotalOutOfRange { date: i32 },
}

/// The download counts of a crate.
#[derive(Debug)]
pub struct DownloadsSummary {
    /// The daily downloads of the newest versions, by day, then by version
    /// id from the highest.
    pub version_downloads: Vec<VersionDownload>,
    /// The daily totals of the other versions, by day.
    pub extra_downloads: Vec<ExtraDownload>,
}

/// The row belongs to one of the versions `ids` and lies after day `since`.
pub open spec fn counts_for(row: VersionDownload, ids: Seq<i32>, since: i32) -> bool {
    ids.contains(row.version_id) && row.date > since
}

/// Row `a` is listed strictly before row `b`: an earlier day, or the same
/// day and a higher version id.
pub open spec fn listed_before(a: VersionDownload, b: VersionDownload) -> bool {
    a.date < b.date || (a.date == b.date && a.version_id > b.version_id)
}

/// `order` lists the indices below `bound` of the rows that count, each
/// once, no later one listed before an earlier one, rows that list alike in
/// increasing order.
pub open spec fn recent_prefix(
    rows: Seq<VersionDownload>,
    ids: Seq<i32>,
    since: i32,
    order: Seq<usize>,
    bound: int,
) -> bool {
    &&& forall|k: int| 0 <= k < order.len() ==> order[k] < bound
    &&& forall|k: int| 0 <= k < order.len() ==> counts_for(#[trigger] rows[order[k] as int], ids, since)
    &&& forall|j: usize| j < bound && counts_for(rows[j as int], ids, since) ==> #[trigger] order.contains(j)
    &&& forall|k: int, l: int| 0 <= k < l < order.len() ==> order[k] != order[l]
    &&& forall|k: int, l: int|
        0 <= k < l < order.len() ==> !listed_before(rows[order[l] as int], rows[order[k] as int])
    &&& forall|k: int, l: int|
        0 <= k < l < order.len() && !listed_before(rows[order[k] as int], rows[order[l] as int])
            ==> order[k] < order[l]
}

/// `listed` holds exactly the rows that count, each once, by day and then
/// by version id from the highest; rows that list alike keep their order.
pub open spec fn is_recent_listing(
    rows: Seq<VersionDownload>,
    ids: Seq<i32>,
    since: i32,
    listed: Seq<VersionDownload>,
) -> bool {
    exists|order: Seq<usize>|
        #[trigger] recent_prefix(rows, ids, since, order, rows.len() as int)
            && listed == order.map_values(|i: usize| rows[i as int])
}

/// Whether `ids` holds `id`.
fn holds_id(ids: &Vec<i32>, id: i32) -> (r: bool)
    ensures
        r == ids@.contains(id),
{
    for k in 0..ids.len()
        invariant
            forall|j: int| 0 <= j < k ==> ids@[j] != id,
    {
        if ids[k] == id {
            return true;
        }
    }
    false
}

/// The downloads of the versions `ids` after day `since`, by day and then by
/// version id from the highest.
pub fn recent_downloads(rows: &Vec<VersionDownload>, ids: &Vec<i32>, since: i32) -> (listed: Vec<VersionDownload>)
    ensures
        is_recent_listing(rows@, ids@, since, listed@),
{
    let n = rows.len();
    let mut order: Vec<usize> = Vec::new();
    for i in 0..n
        invariant
            n == rows.len(),
            recent_prefix(rows@, ids@, since, order@, i as int),
    {
        let row = rows[i];
        if holds_id(ids, row.version_id) && row.date > since {
            let mut p: usize = order.len();
            loop
                invariant
                    n == rows.len(),
                    i < n,
                    row == rows@[i as int],
                    recent_prefix(rows@, ids@, since, order@, i as int),
                    p <= order.len(),
                    forall|l: int| p <= l < order.len() ==> listed_before(row, #[trigger] rows@[order@[l] as int]),
                ensures
                    p <= order.len(),
                    forall|l: int| p <= l < order.len() ==> listed_before(row, #[trigger] rows@[order@[l] as int]),
                    forall|k: int| 0 <= k < p ==> !listed_before(row, #[trigger] rows@[order@[k] as int]),
                decreases p,
            {
                if p == 0 {
                    break;
                }
                let other = rows[order[p - 1]];
                let before = row.date < other.date || (row.date == other.date && row.version_id > other.version_id);
                if !before {
                    assert forall|k: int| 0 <= k < p implies !listed_before(row, #[trigger] rows@[order@[k] as int]) by {
                        if k < p - 1 {
                            assert(!listed_before(rows@[order@[p - 1] as int], rows@[order@[k] as int]));
                        }
                    }
                    break;
                }
                p = p - 1;
            }
            let ghost old_order = order@;
            order.insert(p, i);
            proof {
                let o = order@;
                assert(o == old_order.insert(p as int, i));
                assert forall|k: int| 0 <= k < o.len() implies o[k] < i + 1 && counts_for(#[trigger] rows@[o[k] as int], ids@, since) by {
                    if k > p as int {
                        assert(o[k] == old_order[k - 1]);
                    } else if k < p {
                        assert(o[k] == old_order[k]);
                    }
                }
                assert forall|j: usize| j < i + 1 && counts_for(rows@[j as int], ids@, since) implies #[trigger] o.contains(j) by {
                    if j == i {
                        assert(o[p as int] == i);
                    } else {
                        assert(old_order.contains(j));
                        let k = choose|k: int| 0 <= k < old_order.len() && old_order[k] == j;
                        if k < p {
                            assert(o[k] == j);
                        } else {
                            assert(o[k + 1] == j);
                        }
                    }
                }
                assert forall|k: int, l: int| 0 <= k < l < o.len() implies o[k] != o[l] by {
                    if k < p && l > p {
                        assert(o[l] == old_order[l - 1]);
                    } else if k > p {
                        assert(o[l] == old_order[l - 1]);
                        assert(o[k] == old_order[k - 1]);
                    } else if l == p {
                        assert(old_order[k] < i);
                    } else if k == p {
                        assert(o[l] == old_order[l - 1]);
                    }
                }
                assert forall|k: int, l: int| 0 <= k < l < o.len()
                    implies !listed_before(rows@[o[l] as int], rows@[o[k] as int]) by {
                    if k < p && l > p {
                        assert(o[l] == old_order[l - 1]);
                    } else if k > p {
                        assert(o[l] == old_order[l - 1]);
                        assert(o[k] == old_order[k - 1]);
                    } else if l == p {
                        assert(o[k] == old_order[k]);
                    } else if k == p {
                        assert(o[l] == old_order[l - 1]);
                    }
                }
                assert forall|k: int, l: int| 0 <= k < l < o.len()
                    && !listed_before(rows@[o[k] as int], rows@[o[l] as int])
                    implies o[k] < o[l] by {
                    if k < p && l > p {
                        assert(o[l] == old_order[l - 1]);
                    } else if k > p {
                        assert(o[l] == old_order[l - 1]);
                        assert(o[k] == old_order[k - 1]);
                    } else if l == p {
                        assert(old_order[k] < i);
                    } else if k == p {
                        assert(o[l] == old_order[l - 1]);
                    }
                }
            }
        }
    }
    let mut listed: Vec<VersionDownload> = Vec::new();
    for k in 0..order.len()
        invariant
            n == rows.len(),
            recent_prefix(rows@, ids@, since, order@, n as int),
            listed.len() == k,
            forall|j: int| 0 <= j < k ==> #[trigger] listed@[j] == rows@[order@[j] as int],
    {
        listed.push(rows[order[k]]);
    }
    assert(listed@ == order@.map_values(|i: usize| rows@[i as int]));
    assert(recent_prefix(rows@, ids@, since, order@, rows@.len() as int));
    listed
}

/// The downloads on day `date` of the rows that count, summed.
pub open spec fn day_total(rows: Seq<VersionDownload>, ids: Seq<i32>, since: i32, date: i32) -> int
    decreases rows.len(),
{
    if rows.len() == 0 {
        0
    } else {
        let last = rows.last();
        day_total(rows.drop_last(), ids, since, date)
            + if counts_for(last, ids, since) && last.date == date { last.downloads as int } else { 0 }
    }
}

/// Some row that counts lies on day `date`.
pub open spec fn has_day(rows: Seq<VersionDownload>, ids: Seq<i32>, since: i32, date: i32) -> bool {
    exists|i: int| 0 <= i < rows.len() && counts_for(#[trigger] rows[i], ids, since) && rows[i].date == date
}

/// The total of every day with a row that counts fits in an `i64`.
pub open spec fn totals_fit(rows: Seq<VersionDownload>, ids: Seq<i32>, since: i32) -> bool {
    forall|i: int| 0 <= i < rows.len() && counts_for(#[trigger] rows[i], ids, since)
        ==> i64::MIN <= day_total(rows, ids, since, rows[i].date) <= i64::MAX
}

/// `extra` holds one entry for each day with a row that counts, by day, with
/// the day's total.
pub open spec fn is_extra_listing(
    rows: Seq<VersionDownload>,
    ids: Seq<i32>,
    since: i32,
    extra: Seq<ExtraDownload>,
) -> bool {
    &&& forall|k: int, l: int| 0 <= k < l < extra.len() ==> extra[k].date < extra[l].date
    &&& forall|k: int| 0 <= k < extra.len() ==> has_day(rows, ids, since, #[trigger] extra[k].date)
    &&& forall|k: int| 0 <= k < extra.len()
        ==> #[trigger] extra[k].downloads == day_total(rows, ids, since, extra[k].date)
    &&& forall|i: int| 0 <= i < rows.len() && counts_for(#[trigger] rows[i], ids, since)
        ==> exists|k: int| 0 <= k < extra.len() && #[trigger] extra[k].date == rows[i].date
}

/// The days, in increasing order, of the rows that count.
fn count_days(rows: &Vec<VersionDownload>, ids: &Vec<i32>, since: i32) -> (days: Vec<i32>)
    ensures
        forall|k: int, l: int| 0 <= k < l < days.len() ==> days@[k] < days@[l],
        forall|k: int| 0 <= k < days.len() ==> has_day(rows@, ids@, since, #[trigger] days@[k]),
        forall|i: int| 0 <= i < rows.len() && counts_for(#[trigger] rows@[i], ids@, since)
            ==> days@.contains(rows@[i].date),
{
    let mut days: Vec<i32> = Vec::new();
    for i in 0..rows.len()
        invariant
            forall|k: int, l: int| 0 <= k < l < days.len() ==> days@[k] < days@[l],
            forall|k: int| 0 <= k < days.len() ==> has_day(rows@, ids@, since, #[trigger] days@[k]),
            forall|j: int| 0 <= j < i && counts_for(#[trigger] rows@[j], ids@, since)
                ==> days@.contains(rows@[j].date),
    {
        let row = rows[i];
        if holds_id(ids, row.version_id) && row.date > since {
            let mut p: usize = 0;
            while p < days.len() && days[p] < row.date
                invariant
                    p <= days.len(),
                    forall|k: int| 0 <= k < p ==> days@[k] < row.date,
                decreases days.len() - p,
            {
                p = p + 1;
            }
            assert(has_day(rows@, ids@, since, row.date)) by {
                assert(counts_for(rows@[i as int], ids@, since));
            }
            if p < days.len() && days[p] == row.date {
                assert(days@[p as int] == row.date);
            } else {
                let ghost old_days = days@;
                days.insert(p, row.date);
                proof {
                    let d = days@;
                    assert(d == old_days.insert(p as int, row.date));
                    assert forall|k: int, l: int| 0 <= k < l < d.len() implies d[k] < d[l] by {
                        if k < p && l > p {
                            assert(d[l] == old_days[l - 1]);
                            assert(old_days[k] < old_days[l - 1]);
                        } else if k > p {
                            assert(d[l] == old_days[l - 1]);
                            assert(d[k] == old_days[k - 1]);
                        } else if k == p && l > p {
                            assert(d[l] == old_days[l - 1]);
                            assert(old_days[p as int] <= old_days[l - 1]);
                        }
                    }
                    assert forall|k: int| 0 <= k < d.len() implies has_day(rows@, ids@, since, #[trigger] d[k]) by {
                        if k > p {
                            assert(d[k] == old_days[k - 1]);
                        } else if k < p {
                            assert(d[k] == old_days[k]);
                        }
                    }
                    assert forall|j: int| 0 <= j < i + 1 && counts_for(#[trigger] rows@[j], ids@, since)
                        implies d.contains(rows@[j].date) by {
                        if j == i {
                            assert(d[p as int] == row.date);
                        } else {
                            assert(old_days.contains(rows@[j].date));
                            let k = choose|k: int| 0 <= k < old_days.len() && old_days[k] == rows@[j].date;
                            if k < p {
                                assert(d[k] == old_days[k]);
                            } else {
                                assert(d[k + 1] == old_days[k]);
                            }
                        }
                    }
                }
            }
        }
    }
    days
}

/// The downloads on day `date` of the rows that count, summed, if the sum
/// fits in an `i64`.
fn total_on(rows: &Vec<VersionDownload>, ids: &Vec<i32>, since: i32, date: i32) -> (r: Option<i64>)
    ensures
        match r {
            Some(t) => t == day_total(rows@, ids@, since, date),
            None => !(i64::MIN <= day_total(rows@, ids@, since, date) <= i64::MAX),
        },
{
    let mut acc: i128 = 0;
    for j in 0..rows.len()
        invariant
            acc == day_total(rows@.take(j as int), ids@, since, date),
            -(j as int) * 2147483648 <= acc <= (j as int) * 2147483648,
    {
        let row = rows[j];
        assert(rows@.take(j + 1).drop_last() == rows@.take(j as int));
        if holds_id(ids, row.version_id) && row.date > since && row.date == date {
            acc = acc + row.downloads as i128;
        }
    }
    assert(rows@.take(rows.len() as int) == rows@);
    if acc < i64::MIN as i128 || acc > i64::MAX as i128 {
        None
    } else {
        Some(acc as i64)
    }
}

/// The daily totals of the versions `ids` after day `since`, by day; or the
/// first day whose total does not fit in an `i64`.
pub fn extra_downloads(rows: &Vec<VersionDownload>, ids: &Vec<i32>, since: i32) -> (r: Result<Vec<ExtraDownload>, DownloadsError>)
    ensures
        match r {
            Ok(extra) => totals_fit(rows@, ids@, since) && is_extra_listing(rows@, ids@, since, extra@),
            Err(DownloadsError::TotalOutOfRange { date }) => {
                &&& !totals_fit(rows@, ids@, since)
                &&& has_day(rows@, ids@, since, date)
                &&& !(i64::MIN <= day_total(rows@, ids@, since, date) <= i64::MAX)
            },
        },
{
    let days = count_days(rows, ids, since);
    let mut extra: Vec<ExtraDownload> = Vec::new();
    for k in 0..days.len()
        invariant
            forall|a: int, b: int| 0 <= a < b < days.len() ==> days@[a] < days@[b],
            forall|a: int| 0 <= a < days.len() ==> has_day(rows@, ids@, since, #[trigger] days@[a]),
            forall|i: int| 0 <= i < rows.len() && counts_for(#[trigger] rows@[i], ids@, since)
                ==> days@.contains(rows@[i].date),
            extra.len() == k,
            forall|a: int| 0 <= a < k ==> (#[trigger] extra@[a]).date == days@[a]
                && extra@[a].downloads == day_total(rows@, ids@, since, days@[a]),
    {
        let date = days[k];
        match total_on(rows, ids, since, date) {
            Some(t) => {
                extra.push(ExtraDownload { date, downloads: t });
            },
            None => {
                proof {
                    assert(has_day(rows@, ids@, since, days@[k as int]));
                    let i = choose|i: int| 0 <= i < rows.len() && counts_for(#[trigger] rows@[i], ids@, since) && rows@[i].date == date;
                    assert(counts_for(rows@[i], ids@, since));
                }
                return Err(DownloadsError::TotalOutOfRange { date });
            },
        }
    }
    proof {
        assert forall|i: int| 0 <= i < rows.len() && counts_for(#[trigger] rows@[i], ids@, since)
            implies exists|k: int| 0 <= k < extra@.len() && #[trigger] extra@[k].date == rows@[i].date by {
            let k = choose|k: int| 0 <= k < days.len() && days@[k] == rows@[i].date;
            assert(extra@[k].date == rows@[i].date);
        }
        assert forall|i: int| 0 <= i < rows.len() && counts_for(#[trigger] rows@[i], ids@, since)
            implies i64::MIN <= day_total(rows@, ids@, since, rows@[i].date) <= i64::MAX by {
            let k = choose|k: int| 0 <= k < days.len() && days@[k] == rows@[i].date;
            assert(extra@[k].date == rows@[i].date);
        }
        assert forall|a: int| 0 <= a < extra.len() implies has_day(rows@, ids@, since, #[trigger] extra@[a].date) by {
            assert(has_day(rows@, ids@, since, days@[a]));
        }
    }
    Ok(extra)
}

/// The ids of the newest versions: the first five that `order` lists (or
/// all, if it lists fewer).
pub open spec fn latest_ids(versions: Seq<VersionRecord>, order: Seq<usize>) -> Seq<i32> {
    order.take(latest_len(order.len())).map_values(|i: usize| versions[i as int].id)
}

/// The ids of the versions that `order` lists after the newest five.
pub open spec fn older_ids(versions: Seq<VersionRecord>, order: Seq<usize>) -> Seq<i32> {
    order.skip(latest_len(order.len())).map_values(|i: usize| versions[i as int].id)
}

/// `r` is what the download counts of a crate with `versions` are, given its
/// download rows and the last day before the period counted: the rows of
/// the newest five versions one by one, and the daily totals of the others.
pub open spec fn is_downloads_summary(
    versions: Seq<VersionRecord>,
    rows: Seq<VersionDownload>,
    since: i32,
    r: Result<DownloadsSummary, DownloadsError>,
) -> bool {
    exists|order: Seq<usize>|
        #[trigger] is_newest_first(versions, order) && {
            let latest = latest_ids(versions, order);
            let older = older_ids(versions, order);
            match r {
                Ok(summary) => {
                    &&& is_recent_listing(rows, latest, since, summary.version_downloads@)
                    &&& totals_fit(rows, older, since)
                    &&& is_extra_listing(rows, older, since, summary.extra_downloads@)
                },
                Err(DownloadsError::TotalOutOfRange { date }) => {
                    &&& !totals_fit(rows, older, since)
                    &&& has_day(rows, older, since, date)
                    &&& !(i64::MIN <= day_total(rows, older, since, date) <= i64::MAX)
                },
            }
        }
}

/// The download counts of a crate with `versions`, from its download rows,
/// counting the days after `since`.
pub fn downloads_summary(
    versions: &Vec<VersionRecord>,
    rows: &Vec<VersionDownload>,
    since: i32,
) -> (r: Result<DownloadsSummary, DownloadsError>)
    ensures
        is_downloads_summary(versions@, rows@, since, r),
{
    let sorted = sort_versions(versions);
    let ghost order = choose|order: Seq<usize>|
        is_newest_first(versions@, order) && listed_in_order(versions@, order, sorted@);
    let ghost m = latest_len(sorted@.len());
    let (latest, older) = split_latest(sorted);
    let latest_ids_vec = version_ids(&latest);
    let older_ids_vec = version_ids(&older);
    proof {
        assert(latest_ids_vec@ =~= latest_ids(versions@, order));
        assert(older_ids_vec@ =~= older_ids(versions@, order));
    }
    let version_downloads = recent_downloads(rows, &latest_ids_vec, since);
    match extra_downloads(rows, &older_ids_vec, since) {
        Ok(extra) => {
            let r = Ok(DownloadsSummary { version_downloads, extra_downloads: extra });
            assert(is_newest_first(versions@, order));
            r
        },
        Err(e) => {
            assert(is_newest_first(versions@, order));
            Err(e)
        },
    }
}

/// No two of the versions share an id.
pub open spec fn ids_distinct(versions: Seq<VersionRecord>) -> bool {
    forall|i: int, j: int| 0 <= i < j < versions.len() ==> versions[i].id != versions[j].id
}

/// Law: with versions listed newest first, a download row of one of the
/// versions, after day `since`, counts either among the newest versions or
/// among the others, never among both; and no other row counts at all.
pub proof fn law_rows_count_once(
    versions: Seq<VersionRecord>,
    order: Seq<usize>,
    row: VersionDownload,
    since: i32,
)
    requires
        is_newest_first(versions, order),
        ids_distinct(versions),
        versions.len() <= usize::MAX,
    ensures
        !(counts_for(row, latest_ids(versions, order), since) && counts_for(row, older_ids(versions, order), since)),
        counts_for(row, latest_ids(versions, order), since) || counts_for(row, older_ids(versions, order), since)
            <==> (versions.map_values(|v: VersionRecord| v.id).contains(row.version_id) && row.date > since),
{
    let m = latest_len(order.len());
    let latest = latest_ids(versions, order);
    let older = older_ids(versions, order);
    let all = versions.map_values(|v: VersionRecord| v.id);
    if latest.contains(row.version_id) && older.contains(row.version_id) {
        let a = choose|a: int| 0 <= a < latest.len() && latest[a] == row.version_id;
        let b = choose|b: int| 0 <= b < older.len() && older[b] == row.version_id;
        assert(order[a] != order[b + m]);
        assert(versions[order[a] as int].id == versions[order[b + m] as int].id);
        if order[a] < order[b + m] {
            assert(versions[order[a] as int].id != versions[order[b + m] as int].id);
        } else {
            assert(versions[order[b + m] as int].id != versions[order[a] as int].id);
        }
    }
    if latest.contains(row.version_id) {
        let a = choose|a: int| 0 <= a < latest.len() && latest[a] == row.version_id;
        assert(all[order[a] as int] == row.version_id);
    }
    if older.contains(row.version_id) {
        let b = choose|b: int| 0 <= b < older.len() && older[b] == row.version_id;
        assert(all[order[b + m] as int] == row.version_id);
    }
    if all.contains(row.version_id) {
        let j = choose|j: int| 0 <= j < all.len() && all[j] == row.version_id;
        assert(order.contains(j as usize));
        let k = choose|k: int| 0 <= k < order.len() && order[k] == j as usize;
        assert(order[k] as int == j);
        assert(versions[j].id == row.version_id);
        if k < m {
            assert(latest[k] == row.version_id);
        } else {
            assert(older[k - m] == row.version_id);
        }
    }
}

/// The downloads of all rows that count, summed.
pub open spec fn rows_total(rows: Seq<VersionDownload>, ids: Seq<i32>, since: i32) -> int
    decreases rows.len(),
{
    if rows.len() == 0 {
        0
    } else {
        rows_total(rows.drop_last(), ids, since)
            + if counts_for(rows.last(), ids, since) { rows.last().downloads as int } else { 0 }
    }
}

/// The downloads of the entries, summed.
pub open spec fn extra_total(extra: Seq<ExtraDownload>) -> int
    decreases extra.len(),
{
    if extra.len() == 0 {
        0
    } else {
        extra_total(extra.drop_last()) + extra.last().downloads as int
    }
}

/// The day totals of the days `days`, summed.
spec fn days_sum(rows: Seq<VersionDownload>, ids: Seq<i32>, since: i32, days: Seq<i32>) -> int
    decreases days.len(),
{
    if days.len() == 0 {
        0
    } else {
        days_sum(rows, ids, since, days.drop_last()) + day_total(rows, ids, since, days.last())
    }
}

/// What the row adds to the total of day `date`.
spec fn row_on(row: VersionDownload, ids: Seq<i32>, since: i32, date: i32) -> int {
    if counts_for(row, ids, since) && row.date == date { row.downloads as int } else { 0 }
}

/// What the row adds to the totals of the days `days`, summed.
spec fn row_sum(row: VersionDownload, ids: Seq<i32>, since: i32, days: Seq<i32>) -> int
    decreases days.len(),
{
    if days.len() == 0 {
        0
    } else {
        row_sum(row, ids, since, days.drop_last()) + row_on(row, ids, since, days.last())
    }
}

spec fn increasing(days: Seq<i32>) -> bool {
    forall|k: int, l: int| 0 <= k < l < days.len() ==> days[k] < days[l]
}

proof fn lemma_days_sum_no_rows(ids: Seq<i32>, since: i32, days: Seq<i32>)
    ensures
        days_sum(Seq::<VersionDownload>::empty(), ids, since, days) == 0,
    decreases days.len(),
{
    if days.len() > 0 {
        lemma_days_sum_no_rows(ids, since, days.drop_last());
    }
}

proof fn lemma_days_sum_last_row(rows: Seq<VersionDownload>, ids: Seq<i32>, since: i32, days: Seq<i32>)
    requires
        rows.len() > 0,
    ensures
        days_sum(rows, ids, since, days)
            == days_sum(rows.drop_last(), ids, since, days) + row_sum(rows.last(), ids, since, days),
    decreases days.len(),
{
    if days.len() > 0 {
        lemma_days_sum_last_row(rows, ids, since, days.drop_last());
    }
}

proof fn lemma_row_sum_once(row: VersionDownload, ids: Seq<i32>, since: i32, days: Seq<i32>)
    requires
        increasing(days),
    ensures
        row_sum(row, ids, since, days)
            == if counts_for(row, ids, since) && days.contains(row.date) { row.downloads as int } else { 0 },
    decreases days.len(),
{
    if days.len() > 0 {
        let front = days.drop_last();
        assert(increasing(front));
        lemma_row_sum_once(row, ids, since, front);
        if days.last() == row.date {
            if front.contains(row.date) {
                let k = choose|k: int| 0 <= k < front.len() && front[k] == row.date;
                assert(days[k] < days[days.len() - 1]);
            }
            assert(days[days.len() - 1] == row.date);
        } else {
            if days.contains(row.date) {
                let k = choose|k: int| 0 <= k < days.len() && days[k] == row.date;
                assert(front[k] == row.date);
            }
            if front.contains(row.date) {
                let k = choose|k: int| 0 <= k < front.len() && front[k] == row.date;
                assert(days[k] == row.date);
            }
        }
    }
}

proof fn lemma_days_sum_covers(rows: Seq<VersionDownload>, ids: Seq<i32>, since: i32, days: Seq<i32>)
    requires
        increasing(days),
        forall|i: int| 0 <= i < rows.len() && counts_for(#[trigger] rows[i], ids, since)
            ==> days.contains(rows[i].date),
    ensures
        days_sum(rows, ids, since, days) == rows_total(rows, ids, since),
    decreases rows.len(),
{
    if rows.len() == 0 {
        assert(rows == Seq::<VersionDownload>::empty());
        lemma_days_sum_no_rows(ids, since, days);
    } else {
        let front = rows.drop_last();
        assert forall|i: int| 0 <= i < front.len() && counts_for(#[trigger] front[i], ids, since)
            implies days.contains(front[i].date) by {
            assert(front[i] == rows[i]);
        }
        lemma_days_sum_covers(front, ids, since, days);
        lemma_days_sum_last_row(rows, ids, since, days);
        lemma_row_sum_once(rows.last(), ids, since, days);
        if counts_for(rows.last(), ids, since) {
            assert(counts_for(rows[rows.len() - 1], ids, since));
        }
    }
}

proof fn lemma_extra_total_days(rows: Seq<VersionDownload>, ids: Seq<i32>, since: i32, extra: Seq<ExtraDownload>)
    requires
        forall|k: int| 0 <= k < extra.len()
            ==> #[trigger] extra[k].downloads == day_total(rows, ids, since, extra[k].date),
    ensures
        extra_total(extra) == days_sum(rows, ids, since, extra.map_values(|e: ExtraDownload| e.date)),
    decreases extra.len(),
{
    if extra.len() > 0 {
        let front = extra.drop_last();
        assert forall|k: int| 0 <= k < front.len()
            implies #[trigger] front[k].downloads == day_total(rows, ids, since, front[k].date) by {
            assert(front[k] == extra[k]);
        }
        lemma_extra_total_days(rows, ids, since, front);
        assert(extra.map_values(|e: ExtraDownload| e.date).drop_last()
            =~= front.map_values(|e: ExtraDownload| e.date));
        assert(extra[extra.len() - 1].downloads == day_total(rows, ids, since, extra[extra.len() - 1].date));
    }
}

/// Law: the daily totals add up to the downloads of all the rows that
/// count; no download is lost or counted twice.
pub proof fn law_extra_totals_add_up(
    rows: Seq<VersionDownload>,
    ids: Seq<i32>,
    since: i32,
    extra: Seq<ExtraDownload>,
)
    requires
        is_extra_listing(rows, ids, since, extra),
    ensures
        extra_total(extra) == rows_total(rows, ids, since),
{
    let days = extra.map_values(|e: ExtraDownload| e.date);
    lemma_extra_total_days(rows, ids, since, extra);
    assert(increasing(days));
    assert forall|i: int| 0 <= i < rows.len() && counts_for(#[trigger] rows[i], ids, since)
        implies days.contains(rows[i].date) by {
        let k = choose|k: int| 0 <= k < extra.len() && #[trigger] extra[k].date == rows[i].date;
        assert(days[k] == rows[i].date);
    }
    lemma_days_sum_covers(rows, ids, since, days);
}

/// Law: the recent downloads are listed by day, the earlier day first, and
/// on the same day the higher version id first; every listed row belongs to
/// one of the versions `ids` and lies after day `since`.
pub proof fn law_recent_listing_order(
    rows: Seq<VersionDownload>,
    ids: Seq<i32>,
    since: i32,
    listed: Seq<VersionDownload>,
    k: int,
    l: int,
)
    requires
        is_recent_listing(rows, ids, since, listed),
        0 <= k < l < listed.len(),
    ensures
        listed[k].date <= listed[l].date,
        listed[k].date == listed[l].date ==> listed[k].version_id >= listed[l].version_id,
        ids.contains(listed[k].version_id) && listed[k].date > since,
        ids.contains(listed[l].version_id) && listed[l].date > since,
{
    let order = choose|order: Seq<usize>|
        #[trigger] recent_prefix(rows, ids, since, order, rows.len() as int)
            && listed == order.map_values(|i: usize| rows[i as int]);
    assert(listed[k] == rows[order[k] as int]);
    assert(listed[l] == rows[order[l] as int]);
    assert(!listed_before(rows[order[l] as int], rows[order[k] as int]));
    assert(counts_for(rows[order[k] as int], ids, since));
    assert(counts_for(rows[order[l] as int], ids, since));
}

} // verus!
