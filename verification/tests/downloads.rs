use crates_io::downloads::{
    downloads_summary, extra_downloads, recent_downloads, DownloadsError, ExtraDownload,
    VersionDownload,
};
use crates_io::version_order::VersionRecord;

fn row(version_id: i32, downloads: i32, date: i32) -> VersionDownload {
    VersionDownload { version_id, downloads, date }
}

#[test]
fn recent_downloads_by_day_then_highest_version() {
    let rows = vec![
        row(1, 10, 102),
        row(2, 20, 101),
        row(1, 30, 101),
        row(3, 40, 101),
        row(2, 50, 100),
    ];
    let listed = recent_downloads(&rows, &vec![1, 2], 90);
    assert_eq!(listed, vec![row(2, 50, 100), row(2, 20, 101), row(1, 30, 101), row(1, 10, 102)]);
}

#[test]
fn recent_downloads_leave_out_the_old_days() {
    let rows = vec![row(1, 10, 90), row(1, 11, 91), row(1, 12, 89)];
    let listed = recent_downloads(&rows, &vec![1], 90);
    assert_eq!(listed, vec![row(1, 11, 91)]);
}

#[test]
fn recent_downloads_of_no_versions() {
    let rows = vec![row(1, 10, 100)];
    assert!(recent_downloads(&rows, &vec![], 0).is_empty());
}

#[test]
fn extra_downloads_summed_by_day() {
    let rows = vec![
        row(1, 10, 101),
        row(2, 5, 100),
        row(1, 3, 100),
        row(3, 7, 100),
        row(2, 4, 50),
        row(2, 1, 102),
    ];
    let extra = extra_downloads(&rows, &vec![1, 2], 60).unwrap();
    assert_eq!(
        extra,
        vec![
            ExtraDownload { date: 100, downloads: 8 },
            ExtraDownload { date: 101, downloads: 10 },
            ExtraDownload { date: 102, downloads: 1 },
        ]
    );
}

#[test]
fn extra_downloads_go_beyond_i32() {
    let rows = vec![row(1, i32::MAX, 100), row(2, i32::MAX, 100), row(1, 1, 100)];
    let extra = extra_downloads(&rows, &vec![1, 2], 0).unwrap();
    assert_eq!(extra, vec![ExtraDownload { date: 100, downloads: 2 * (i32::MAX as i64) + 1 }]);
}

#[test]
fn extra_downloads_of_nothing() {
    let extra = extra_downloads(&vec![], &vec![1], 0).unwrap();
    assert!(extra.is_empty());
}

#[test]
fn extra_totals_add_up_to_the_rows() {
    let rows = vec![row(4, 2, 10), row(5, 3, 11), row(4, 5, 11), row(6, 100, 12), row(5, 7, 9)];
    let ids = vec![4, 5];
    let extra = extra_downloads(&rows, &ids, 9).unwrap();
    let total: i64 = extra.iter().map(|e| e.downloads).sum();
    let expected: i64 = rows
        .iter()
        .filter(|r| ids.contains(&r.version_id) && r.date > 9)
        .map(|r| r.downloads as i64)
        .sum();
    assert_eq!(total, expected);
    assert_eq!(total, 10);
}

fn versions(nums: &[&str]) -> Vec<VersionRecord> {
    nums.iter()
        .enumerate()
        .map(|(i, n)| VersionRecord { id: (i as i32) + 1, num: n.to_string() })
        .collect()
}

#[test]
fn summary_splits_newest_five_from_the_rest() {
    // ids 1..=7; newest first: 7.0.0 (id 2), 6.0.0 (3), 5.0.0 (4), 4.0.0 (5),
    // 3.0.0 (6), then 2.0.0 (7), 1.0.0 (1)
    let vs = versions(&["1.0.0", "7.0.0", "6.0.0", "5.0.0", "4.0.0", "3.0.0", "2.0.0"]);
    let rows = vec![
        row(1, 1, 100),
        row(2, 2, 100),
        row(7, 3, 100),
        row(6, 4, 101),
        row(1, 5, 101),
        row(7, 6, 20),
    ];
    let summary = downloads_summary(&vs, &rows, 50).unwrap();
    assert_eq!(summary.version_downloads, vec![row(2, 2, 100), row(6, 4, 101)]);
    assert_eq!(
        summary.extra_downloads,
        vec![ExtraDownload { date: 100, downloads: 4 }, ExtraDownload { date: 101, downloads: 5 }]
    );
}

#[test]
fn summary_with_few_versions_has_no_extra() {
    let vs = versions(&["0.1.0", "0.2.0"]);
    let rows = vec![row(1, 3, 10), row(2, 4, 10)];
    let summary = downloads_summary(&vs, &rows, 0).unwrap();
    assert_eq!(summary.version_downloads, vec![row(2, 4, 10), row(1, 3, 10)]);
    assert!(summary.extra_downloads.is_empty());
}

#[test]
fn summary_puts_invalid_versions_among_the_rest() {
    let vs = versions(&["bogus", "1.0.0", "2.0.0", "3.0.0", "4.0.0", "5.0.0"]);
    let rows = vec![row(1, 9, 10), row(2, 1, 10)];
    let summary = downloads_summary(&vs, &rows, 0).unwrap();
    assert_eq!(summary.version_downloads, vec![row(2, 1, 10)]);
    assert_eq!(summary.extra_downloads, vec![ExtraDownload { date: 10, downloads: 9 }]);
}

#[test]
fn error_names_the_day() {
    let e = DownloadsError::TotalOutOfRange { date: 3 };
    assert_eq!(e, DownloadsError::TotalOutOfRange { date: 3 });
}

#[test]
fn every_download_of_the_period_shows_once() {
    let vs = versions(&["1.0.0", "2.0.0", "3.0.0", "4.0.0", "5.0.0", "6.0.0", "7.0.0", "x"]);
    let rows: Vec<VersionDownload> = (1..=8)
        .flat_map(|id| (0..3).map(move |d| row(id, id * 10 + d, 100 + d)))
        .collect();
    let summary = downloads_summary(&vs, &rows, 100).unwrap();
    let shown: i64 = summary.version_downloads.iter().map(|r| r.downloads as i64).sum::<i64>()
        + summary.extra_downloads.iter().map(|e| e.downloads).sum::<i64>();
    let expected: i64 = rows.iter().filter(|r| r.date > 100).map(|r| r.downloads as i64).sum();
    assert_eq!(shown, expected);
    assert_eq!(summary.version_downloads.len(), 10);
    assert_eq!(summary.extra_downloads.len(), 2);
}
