use sina_quotes::data::types::FuturesCategory;
use sina_quotes::net::answer::{history_rows, slot_rows, HistoryRow, RowKeys};
use sina_quotes::storage::segments::sort_rows_by_id;
use sina_quotes::net::daily::{daily_order, daily_period, plan_day_groups, DailyPeriod};
use sina_quotes::net::datetime::{bar_slot, parse_bar_fields_time, parse_datetime};
use sina_quotes::net::endpoints::{
    cache_buster, daily_url, history_code, history_request, market_hours_url, mink_url,
    mink_var_name, referer, HistoryRequest,
};
use sina_quotes::net::history::{
    compute_bucket_id, duration_ns, empty_to_none, extract_json_array, extract_json_object,
    infer_market_symbol, market_hours_cache_key, market_hours_from_payload, Error,
};

#[test]
fn history_test_extract_json_array_valid() {
    let text = r#"var _sh510050_5_sh510050=(["field1","field2"]);"#;
    let result = extract_json_array(text);
    assert!(result.is_ok());
    assert_eq!(result.unwrap(), r#""field1","field2""#);
}

#[test]
fn history_test_extract_json_array_nested() {
    let text = r#"var test=([{"a":[1,2]},{"b":3}]);"#;
    let result = extract_json_array(text);
    assert!(result.is_ok());
    assert_eq!(result.unwrap(), r#"{"a":[1,2]},{"b":3}"#);
}

#[test]
fn history_test_extract_json_array_no_pattern() {
    let text = "some random text without pattern";
    let result = extract_json_array(text);
    assert!(result.is_err());
}

#[test]
fn history_test_extract_json_array_unmatched_brackets() {
    let text = "var test=([1,2,3);";
    let result = extract_json_array(text);
    assert!(result.is_err());
}

#[test]
fn test_extract_json_object_valid() {
    let text = r#"var kke_future_hf_FEF=({"timezone":"summer","time":[["07:25","23:59"],["00:00","05:15"]]});"#;
    let result = extract_json_object(text);
    assert!(result.is_ok());
    assert_eq!(
        result.unwrap(),
        r#"{"timezone":"summer","time":[["07:25","23:59"],["00:00","05:15"]]}"#
    );
}

#[test]
fn test_infer_market_symbol_hf_prefixed() {
    let inferred = infer_market_symbol("hf_FEF");
    assert_eq!(inferred.category, FuturesCategory::Hf);
    assert_eq!(inferred.code, "FEF");
}

#[test]
fn test_infer_market_symbol_nf_prefixed() {
    let inferred = infer_market_symbol("nf_SC0");
    assert_eq!(inferred.category, FuturesCategory::Nf);
    assert_eq!(inferred.code, "SC0");
}

#[test]
fn test_infer_market_symbol_bare_defaults_to_nf() {
    let inferred = infer_market_symbol("sc0");
    assert_eq!(inferred.category, FuturesCategory::Nf);
    assert_eq!(inferred.code, "SC0");
}

#[test]
fn extract_errors_are_parse_errors() {
    assert!(matches!(extract_json_array("no marker"), Err(Error::Parse(_))));
    assert!(matches!(extract_json_object("var x=({\"a\":1"), Err(Error::Parse(_))));
    assert_eq!(extract_json_array("x=([]);").unwrap(), "");
}

#[test]
fn market_hours_cache_key_and_payload() {
    assert_eq!(market_hours_cache_key(" hf_fef "), "hf:FEF");
    assert_eq!(market_hours_cache_key("nf_SC0"), "nf:SC0");
    assert_eq!(empty_to_none("  ".to_string()), None);
    assert_eq!(empty_to_none(" (SGX) ".to_string()), Some("(SGX)".to_string()));
    let m = market_hours_from_payload(
        FuturesCategory::Hf,
        "FEF",
        "summer".to_string(),
        "(SGX)".to_string(),
        String::new(),
        vec![
            ("07:25".to_string(), "23:59".to_string()),
            ("00:00".to_string(), "05:15".to_string()),
        ],
    );
    assert_eq!(m.symbol, "FEF");
    assert_eq!(m.exchange.as_deref(), Some("(SGX)"));
    assert_eq!(m.interval, None);
    assert_eq!(m.sessions.len(), 2);
    assert_eq!(m.sessions[1].end, "05:15");
}

#[test]
fn test_compute_bucket_id_minute_step() {
    let duration_seconds = 60;
    let dt0 = parse_datetime("2020-01-01 00:00");
    let dt1 = parse_datetime("2020-01-01 00:01");
    let id0 = compute_bucket_id(dt0, duration_seconds);
    let id1 = compute_bucket_id(dt1, duration_seconds);
    assert_eq!(id1 - id0, 1);
}

#[test]
fn parse_datetime_layouts() {
    let day = 1_577_836_800_000_000_000i64; // 2020-01-01T00:00:00Z
    assert_eq!(parse_datetime("2020-01-01 00:00:00"), day);
    assert_eq!(parse_datetime("2020-01-01 00:01"), day + 60_000_000_000);
    assert_eq!(parse_datetime("2020/01/01 00:00:05"), day + 5_000_000_000);
    assert_eq!(parse_datetime("2020/01/01 01:00"), day + 3_600_000_000_000);
    assert_eq!(parse_datetime("2020-01-02"), day + 86_400_000_000_000);
    assert_eq!(parse_datetime("2020/01/02"), day + 86_400_000_000_000);
    assert_eq!(parse_datetime("2020-01-01T08:00:00+08:00"), day);
    assert_eq!(parse_datetime("not a date"), 0);
}

#[test]
fn buckets_floor_toward_negative_infinity() {
    assert_eq!(compute_bucket_id(-1, 60), -1);
    assert_eq!(compute_bucket_id(59_999_999_999, 60), 0);
    assert_eq!(compute_bucket_id(123, 0), 0);
    assert_eq!(duration_ns(60), 60_000_000_000);
    assert_eq!(bar_slot(61_000_000_000, 60), (1, 60_000_000_000));
    assert_eq!(bar_slot(-1, 60), (-1, -60_000_000_000));
}

#[test]
fn history_requests_by_period() {
    assert_eq!(history_request(300).unwrap(), HistoryRequest::Minutes { period_minutes: 5 });
    assert_eq!(history_request(86_400).unwrap(), HistoryRequest::Daily);
    assert_eq!(history_request(0), Err(Error::Parse("duration_seconds must be > 0".to_string())));
    assert_eq!(
        history_request(90),
        Err(Error::Parse("intraday duration_seconds must be a multiple of 60".to_string()))
    );
}

#[test]
fn history_urls() {
    assert_eq!(history_code("hf_CL"), "CL");
    assert_eq!(history_code("cl"), "CL");
    assert_eq!(mink_var_name("CL", 5), "_CL_5_2");
    assert_eq!(mink_var_name("原油", 5), "_原油_5_6");
    assert_eq!(
        mink_url("_CL_5_2"),
        "https://gu.sina.cn/ft/api/jsonp.php/var%20_CL_5_2%3D/GlobalService.getMink"
    );
    assert_eq!(
        mink_url("a b"),
        "https://gu.sina.cn/ft/api/jsonp.php/var%20a%20b%3D/GlobalService.getMink"
    );
    assert_eq!(cache_buster(2026, 4, 18), "2026_4_18");
    assert_eq!(
        daily_url("CL", "2026_4_18"),
        "https://stock2.finance.sina.com.cn/futures/api/jsonp.php/var%20_CL2026_4_18=/GlobalFuturesService.getGlobalFuturesDailyKLine"
    );
    assert_eq!(referer("CL"), "https://finance.sina.com.cn/futures/quotes/CL.shtml");
    assert_eq!(
        market_hours_url("hf", "FEF"),
        "https://stock.finance.sina.com.cn/futures/api/jsonp.php/var%20kke_future_hf_FEF=/InterfaceInfoService.getMarket"
    );
}

fn day_ns(date: &str) -> i64 {
    let (_, dt) = bar_slot(parse_datetime(date), 86_400);
    dt
}

#[test]
fn aggregate_daily_single_day_keeps_first_of_each_id() {
    let ids = [compute_bucket_id(day_ns("2020-01-02"), 86_400), compute_bucket_id(day_ns("2020-01-01"), 86_400), compute_bucket_id(day_ns("2020-01-02"), 86_400)];
    let order = daily_order(&ids);
    assert_eq!(order.len(), 2);
    assert_eq!(order[0].1, 1);
    assert_eq!(order[1].1, 0);
    assert_eq!(daily_period(86_400).unwrap(), DailyPeriod::SingleDay);
}

#[test]
fn aggregate_daily_two_days_groups_complete_bucket() {
    let dts = [day_ns("2020-01-01"), day_ns("2020-01-02")];
    let groups = plan_day_groups(&dts, 172_800);
    assert_eq!(groups.len(), 1);
    let members: Vec<usize> = groups[0].members.iter().map(|m| m.1).collect();
    assert_eq!(members, vec![0, 1]);
    assert_eq!(daily_period(172_800).unwrap(), DailyPeriod::Days { days: 2 });
}

#[test]
fn aggregate_daily_two_days_skips_incomplete_bucket() {
    let dts = [day_ns("2020-01-01")];
    assert!(plan_day_groups(&dts, 172_800).is_empty());
}

#[test]
fn aggregate_daily_seven_days_full_window() {
    let dates = ["2020-01-02", "2020-01-03", "2020-01-04", "2020-01-05", "2020-01-06", "2020-01-07", "2020-01-08"];
    let dts: Vec<i64> = dates.iter().map(|d| day_ns(d)).collect();
    let groups = plan_day_groups(&dts, 604_800);
    assert_eq!(groups.len(), 1);
    assert_eq!(groups[0].members.len(), 7);
    assert_eq!(groups[0].bucket_id, day_ns("2020-01-02") / (604_800 * 1_000_000_000));
}

#[test]
fn aggregate_daily_last_bar_of_a_day_counts() {
    let dts = [day_ns("2020-01-01"), day_ns("2020-01-02"), day_ns("2020-01-01")];
    let groups = plan_day_groups(&dts, 172_800);
    assert_eq!(groups.len(), 1);
    let members: Vec<usize> = groups[0].members.iter().map(|m| m.1).collect();
    assert_eq!(members, vec![2, 1]);
}

#[test]
fn aggregate_daily_rejects_non_daily_multiple() {
    assert!(matches!(daily_period(90_000), Err(Error::Parse(_))));
    assert!(matches!(daily_period(3_600), Err(Error::Parse(_))));
}

#[test]
fn bar_fields_time_needs_an_offset() {
    // The three layouts carry no UTC offset, so a plain time stamp does not
    // read as an offset date and time.
    assert_eq!(parse_bar_fields_time("2024-01-15 09:30:00"), None);
    assert_eq!(parse_bar_fields_time("2024-01-15"), None);
    assert_eq!(parse_bar_fields_time("not a time"), None);
}

fn fields(r: &HistoryRow) -> Vec<&str> {
    vec![&r.time, &r.open, &r.high, &r.low, &r.close, &r.volume, &r.open_interest]
        .into_iter()
        .map(|s| s.as_str())
        .collect()
}

#[test]
fn minute_rows_need_every_field() {
    let text = "var _CL_1_2=([\
        {\"d\":\"2024-01-15 09:30:00\",\"o\":\"1\",\"h\":\"2\",\"l\":\"0.5\",\"c\":\"1.5\",\"v\":\"10\",\"p\":7},\
        {\"d\":\"2024-01-15 09:31:00\",\"o\":\"1\",\"h\":\"2\",\"l\":\"0.5\",\"c\":\"1.5\",\"v\":\"10\"},\
        3,\
        {\"d\":\"2024-01-15 09:32:00\",\"o\":\"1\",\"h\":\"2\",\"l\":\"0.5\",\"c\":\"1.5\",\"v\":\"11\",\"p\":\"9\"}\
    ]);";
    let rows = history_rows(text, RowKeys::Minute).unwrap();
    assert_eq!(rows.len(), 2);
    assert_eq!(fields(&rows[0]), vec!["2024-01-15 09:30:00", "1", "2", "0.5", "1.5", "10", "0"]);
    assert_eq!(fields(&rows[1]), vec!["2024-01-15 09:32:00", "1", "2", "0.5", "1.5", "11", "9"]);
}

#[test]
fn daily_rows_default_the_position() {
    let text = "var x=([{\"date\":\"2024-01-15\",\"open\":\"1\",\"high\":\"2\",\"low\":\"0.5\",\"close\":\"1.5\",\"volume\":\"10\"}]);";
    let rows = history_rows(text, RowKeys::Daily).unwrap();
    assert_eq!(fields(&rows[0]), vec!["2024-01-15", "1", "2", "0.5", "1.5", "10", "0"]);
    assert!(history_rows(text, RowKeys::Minute).unwrap().is_empty());
}

#[test]
fn history_rows_errors() {
    match history_rows("no payload here", RowKeys::Minute) {
        Err(Error::Parse(_)) => {}
        _ => panic!("expected a parse error"),
    }
    match history_rows("var x=([{,]);", RowKeys::Minute) {
        Err(Error::Parse(m)) => assert!(m.starts_with("JSON decode: ")),
        _ => panic!("expected a decode error"),
    }
}

#[test]
fn rows_are_slotted_and_sorted() {
    let row = |t: &str, v: &str| HistoryRow {
        time: t.to_string(),
        open: "1".to_string(),
        high: "1".to_string(),
        low: "1".to_string(),
        close: "1".to_string(),
        volume: v.to_string(),
        open_interest: "0".to_string(),
    };
    let rows = vec![row("2024-01-15 09:31:10", "a"), row("2024-01-15 09:30:00", "b"), row("2024-01-15 09:31:50", "c")];
    let slotted = slot_rows(rows, 60);
    let ids: Vec<(i64, i64, String)> = slotted.iter().map(|(id, (dt, r))| (*id, *dt, r.volume.clone())).collect();
    let base = 1_705_311_000i64 / 60;
    assert_eq!(
        ids,
        vec![
            (base + 1, (base + 1) * 60_000_000_000, "a".to_string()),
            (base, base * 60_000_000_000, "b".to_string()),
            (base + 1, (base + 1) * 60_000_000_000, "c".to_string()),
        ]
    );
    let sorted: Vec<String> = sort_rows_by_id(slotted).iter().map(|(_, (_, r))| r.volume.clone()).collect();
    assert_eq!(sorted, vec!["b", "a", "c"]);
}
