use sina_quotes::data::types::Duration;
use sina_quotes::storage::cache::{
    build_stats, cached_range_set, is_complete, missing_ranges, pending_step, quote_bucket,
    series_duration_ns, step_grows_disk, CacheIndex, CacheKey, PendingKey, PendingStep,
    SeriesEntryMeta,
};
use sina_quotes::storage::data_series::{
    data_file_name, lock_file_name, parse_data_file_name, temp_file_name, BAR_RECORD_SIZE,
};
use sina_quotes::storage::listing::group_entries;
use sina_quotes::storage::quote_cache::{
    decode_fixed_str, encode_fixed_str, quote_file_name, quote_lock_name, NAME_BYTES,
    QUOTE_RECORD_SIZE,
};
use sina_quotes::storage::rows::{
    index_by_id, index_by_id_first, overlay_in_window, overlay_rows, split_contiguous, tail_rows,
};
use sina_quotes::storage::segments::{
    eviction_order, plan_latest_reads, plan_upsert, plan_window_reads, series_ranges,
    sort_rows_by_id, symbol_durations, SegmentRead, UpsertPlan,
};
use sina_quotes::RangeSet;

#[test]
fn cache_key_filename() {
    let key = CacheKey::new("hf_CL", Duration::minutes(5));
    assert_eq!(key.symbol, "hf_CL");
    assert_eq!(key.cache_filename(), "hf_CL_300.bin");
    assert_eq!(series_duration_ns(&key), 300_000_000_000);
    let huge = CacheKey::new("x", Duration { ns: u64::MAX });
    assert_eq!(series_duration_ns(&huge), 0);
    let idx = CacheIndex::new();
    assert_eq!(idx.version, 1);
    assert!(idx.entries.is_empty());
    let p = PendingKey::new("hf_CL", 60);
    assert_eq!(p.duration_ns, 60);
}

#[test]
fn test_missing_ranges() {
    let have = cached_range_set(vec![(1, 3), (50, 52)], None);
    let missing = missing_ranges(&have, 1, 100);
    assert_eq!(missing, vec![(3, 50), (52, 100)]);
    assert!(!is_complete(&have, 1, 100));
    assert!(is_complete(&have, 1, 3));
    assert!(is_complete(&have, 5, 5));
}

#[test]
fn pending_bar_counts_as_cached() {
    let have = cached_range_set(vec![(0, 2)], Some(2));
    assert_eq!(have.ranges(), &[(0, 3)]);
    assert!(is_complete(&have, 0, 3));
    assert!(missing_ranges(&RangeSet::new(), 0, 0).is_empty());
}

#[test]
fn quote_buckets_per_period() {
    assert_eq!(quote_bucket(60_000_000_000, 130), Some(2));
    assert_eq!(quote_bucket(3_600_000_000_000, 2 * 3600 + 30), Some(2));
    assert_eq!(quote_bucket(0, 130), None);
    assert_eq!(quote_bucket(500_000_000, 130), None);
    assert_eq!(quote_bucket(60_000_000_000, -1), Some(-1));
}

#[test]
fn pending_steps() {
    assert_eq!(pending_step(Some(3), None, 2), PendingStep::Ignore);
    assert_eq!(pending_step(Some(3), Some(9), 3), PendingStep::UpdatePending);
    assert_eq!(pending_step(Some(3), None, 4), PendingStep::FlushAndOpen);
    assert_eq!(pending_step(None, Some(2), 1), PendingStep::Ignore);
    assert_eq!(pending_step(None, Some(2), 2), PendingStep::ResumeStored);
    assert_eq!(pending_step(None, Some(2), 3), PendingStep::Open);
    assert_eq!(pending_step(None, None, 3), PendingStep::Open);
    assert!(step_grows_disk(PendingStep::FlushAndOpen));
    assert!(!step_grows_disk(PendingStep::Open));
}

#[test]
fn stats_keep_positive_periods() {
    let series = vec![
        SeriesEntryMeta { symbol: "a".into(), duration_ns: 60, ranges: vec![(0, 5)], updated_at: 9, bar_count: 5 },
        SeriesEntryMeta { symbol: "b".into(), duration_ns: 0, ranges: vec![(0, 2)], updated_at: 1, bar_count: 2 },
        SeriesEntryMeta { symbol: "c".into(), duration_ns: 120, ranges: vec![(4, 6), (0, 1)], updated_at: 3, bar_count: 3 },
    ];
    let st = build_stats(series);
    assert_eq!(st.total_entries, 2);
    assert_eq!(st.total_bars, 8);
    assert_eq!(st.entries[0].symbol, "a");
    assert_eq!(st.entries[1].symbol, "c");
    assert_eq!(st.entries[1].duration.ns, 120);
    assert_eq!(st.entries[1].ranges.ranges(), &[(0, 1), (4, 6)]);
}

#[test]
fn test_cache_put_deduplicates_by_id() {
    let first = vec![(1, "a1"), (2, "a2"), (3, "a3")];
    let second = vec![(2, "b2"), (3, "b3"), (4, "b4")];
    let merged = overlay_rows(first, second);
    assert_eq!(merged, vec![(1, "a1"), (2, "b2"), (3, "b3"), (4, "b4")]);
}

#[test]
fn test_cache_latest_returns_tail_bars() {
    let rows = vec![1, 2, 3, 4, 5];
    assert_eq!(tail_rows(rows, 2), vec![4, 5]);
    assert_eq!(tail_rows(vec![1, 2], 5), vec![1, 2]);
    assert!(tail_rows(vec![1, 2], 0).is_empty());
}

#[test]
fn index_by_id_last_and_first_win() {
    let rows = vec![(3, 'a'), (1, 'b'), (3, 'c'), (2, 'd'), (1, 'e')];
    assert_eq!(index_by_id(rows.clone()), vec![(1, 'e'), (2, 'd'), (3, 'c')]);
    assert_eq!(index_by_id_first(rows), vec![(1, 'b'), (2, 'd'), (3, 'a')]);
}

#[test]
fn split_contiguous_rows_into_runs() {
    let segs = split_contiguous(vec![(5, 'e'), (1, 'a'), (2, 'b'), (2, 'B'), (7, 'g'), (6, 'f')]);
    assert_eq!(segs, vec![vec![(1, 'a'), (2, 'B')], vec![(5, 'e'), (6, 'f'), (7, 'g')]]);
    assert!(split_contiguous::<char>(vec![]).is_empty());
}

#[test]
fn segment_file_names_roundtrip() {
    let name = data_file_name("hf.CL", -60, (3, 9));
    assert_eq!(name, "hf.CL.-60.3.9");
    assert_eq!(parse_data_file_name(&name), Some(("hf.CL".to_string(), -60, (3, 9))));
    assert_eq!(parse_data_file_name("hf_CL.60.9.3"), None);
    assert_eq!(parse_data_file_name(".hf_CL.60.lock"), None);
    assert_eq!(parse_data_file_name("hf_CL.60.temp"), None);
    assert_eq!(parse_data_file_name(".60.1.2"), None);
    assert_eq!(temp_file_name("hf_CL", 60), "hf_CL.60.temp");
    assert_eq!(lock_file_name("hf_CL", 60), ".hf_CL.60.lock");
    assert_eq!(BAR_RECORD_SIZE, 64);
}

fn files() -> Vec<(String, i64, (i64, i64))> {
    vec![
        ("hf_CL".to_string(), 60, (5, 6)),
        ("hf_GC".to_string(), 60, (0, 3)),
        ("hf_CL".to_string(), 60, (1, 3)),
        ("hf_CL".to_string(), 300, (0, 1)),
        ("hf_CL".to_string(), 60, (3, 5)),
    ]
}

#[test]
fn read_latest_reads_tail_across_segments() {
    let ranges = series_ranges(&files(), "hf_CL", 60);
    assert_eq!(ranges, vec![(1, 3), (3, 5), (5, 6)]);
    assert_eq!(symbol_durations(&files(), "hf_CL"), vec![60, 300]);
    assert!(symbol_durations(&files(), "hf_XX").is_empty());
    let reads = plan_latest_reads(&[(1, 3), (5, 6)], 2);
    assert_eq!(
        reads,
        vec![
            SegmentRead { range: (5, 6), start_index: 0, end_index: 1 },
            SegmentRead { range: (1, 3), start_index: 1, end_index: 2 },
        ]
    );
    let rows = sort_rows_by_id(vec![(5, 'x'), (2, 'y')]);
    assert_eq!(rows, vec![(2, 'y'), (5, 'x')]);
}

#[test]
fn window_reads_cover_the_overlap() {
    let reads = plan_window_reads(&[(0, 10), (20, 30), (40, 50)], 5, 25);
    assert_eq!(
        reads,
        vec![
            SegmentRead { range: (0, 10), start_index: 5, end_index: 10 },
            SegmentRead { range: (20, 30), start_index: 0, end_index: 5 },
        ]
    );
    assert!(plan_window_reads(&[(0, 10)], 5, 5).is_empty());
}

#[test]
fn upsert_last_row_overwrites_and_appends() {
    let ranges = [(1, 3)];
    assert_eq!(
        plan_upsert(&ranges, 2, BAR_RECORD_SIZE),
        UpsertPlan::Overwrite { range: (1, 3), offset: 64 }
    );
    assert_eq!(
        plan_upsert(&ranges, 3, BAR_RECORD_SIZE),
        UpsertPlan::Append { range: (1, 3), grown: (1, 4) }
    );
    assert_eq!(plan_upsert(&ranges, 1, BAR_RECORD_SIZE), UpsertPlan::Skip);
    assert_eq!(plan_upsert(&ranges, 9, BAR_RECORD_SIZE), UpsertPlan::NewSegment);
    assert_eq!(plan_upsert(&[], 9, BAR_RECORD_SIZE), UpsertPlan::NewSegment);
    assert_eq!(plan_upsert(&[(0, i64::MAX)], i64::MAX - 1, BAR_RECORD_SIZE), UpsertPlan::OffsetOverflow);
}

#[test]
fn enforce_limits_evicts_oldest_files_first() {
    assert_eq!(eviction_order(&[30, 10, 20, 10]), vec![1, 3, 2, 0]);
    assert!(eviction_order(&[]).is_empty());
}

#[test]
fn listing_groups_series() {
    let listed: Vec<(String, i64, (i64, i64), u64)> = files()
        .into_iter()
        .enumerate()
        .map(|(i, (s, d, r))| (s, d, r, 100 + i as u64))
        .collect();
    let entries = group_entries(&listed);
    assert_eq!(entries.len(), 3);
    assert_eq!((entries[0].symbol.as_str(), entries[0].duration_ns), ("hf_CL", 60));
    assert_eq!(entries[0].ranges, vec![(1, 3), (3, 5), (5, 6)]);
    assert_eq!(entries[0].bar_count, 5);
    assert_eq!(entries[0].updated_at, 104);
    assert_eq!((entries[1].symbol.as_str(), entries[1].duration_ns), ("hf_CL", 300));
    assert_eq!((entries[2].symbol.as_str(), entries[2].duration_ns), ("hf_GC", 60));
}

#[test]
fn quote_roundtrip() {
    let field = encode_fixed_str("原油", NAME_BYTES);
    assert_eq!(field.len(), NAME_BYTES);
    assert_eq!(decode_fixed_str(&field), "原油");
    let time = encode_fixed_str("15:00:00", 16);
    assert_eq!(decode_fixed_str(&time), "15:00:00");
    assert_eq!(QUOTE_RECORD_SIZE, 176);
}

#[test]
fn fixed_str_cuts_at_char_boundary() {
    let field = encode_fixed_str("ab原", 4);
    assert_eq!(field, vec![b'a', b'b', 0, 0]);
    assert_eq!(decode_fixed_str(&field), "ab");
    assert_eq!(decode_fixed_str(&[0xff, b'a', 0, b'z']), "\u{FFFD}a");
    assert_eq!(quote_file_name("hf_CL"), "hf_CL.quote");
    assert_eq!(quote_lock_name("hf_CL"), ".hf_CL.lock");
}

#[test]
fn sorting_rows_keeps_equal_ids_in_order() {
    let rows = vec![(2, 'a'), (1, 'b'), (2, 'c'), (1, 'd'), (0, 'e')];
    assert_eq!(sort_rows_by_id(rows), vec![(0, 'e'), (1, 'b'), (1, 'd'), (2, 'a'), (2, 'c')]);
}

#[test]
fn pending_bar_is_overlaid_only_inside_the_window() {
    let rows = vec![(10, 'a'), (11, 'b')];
    assert_eq!(overlay_in_window(rows.clone(), Some((11, 'x')), 10, 12), vec![(10, 'a'), (11, 'x')]);
    assert_eq!(overlay_in_window(rows.clone(), Some((12, 'x')), 10, 12), rows);
    assert_eq!(overlay_in_window(rows.clone(), None, 10, 12), rows);
}
