use sina_quotes::net::ws::{
    build_international_ws_url, build_ws_url, normalize_code, parse_international_quote,
    parse_quote, quote_lines, ws_target, Error,
};
use sina_quotes::net::ws_service::{
    uses_international_feed, ReconnectMachine, WsAction, WsEvent, WsPhase, WsState,
};
use sina_quotes::poll::{build_international_url, parse_international_quote as parse_polled};

#[test]
fn test_normalize_code_simple() {
    assert_eq!(normalize_code("sh510050"), "sh510050");
    assert_eq!(normalize_code("sh000001"), "sh000001");
}

#[test]
fn test_normalize_code_with_dot() {
    assert_eq!(normalize_code("510050.SH"), "sh510050");
    assert_eq!(normalize_code("000001.SZ"), "sz000001");
}

#[test]
fn test_normalize_code_empty() {
    assert_eq!(normalize_code(""), "");
    assert_eq!(normalize_code("   "), "");
}

#[test]
fn test_build_ws_url_single() {
    let url = build_ws_url(&["sh510050"]);
    assert_eq!(url, "ws://w.sinajs.cn/wskt?list=sh510050");
}

#[test]
fn test_build_ws_url_multiple() {
    let url = build_ws_url(&["sh510050", "sh510300"]);
    assert_eq!(url, "ws://w.sinajs.cn/wskt?list=sh510050,sh510300");
}

#[test]
fn test_parse_quote_valid() {
    let text = "sh510050=2.930,0.01,123456789,100,2.920,2.940,2.910,2.930,1000000,10000000;";
    let result = parse_quote(text, 0);
    assert!(result.is_ok());
    let quote = result.unwrap();
    assert_eq!(quote.symbol, "sh510050");
    assert_eq!(quote.price, "2.930");
    assert_eq!(quote.volume, "123456789");
}

#[test]
fn test_parse_quote_invalid_no_equals() {
    let text = "sh510050";
    let result = parse_quote(text, 0);
    assert!(result.is_err());
}

#[test]
fn test_parse_quote_invalid_no_semicolon_data() {
    let text = "sh510050=";
    let result = parse_quote(text, 0);
    assert!(result.is_err());
}

#[test]
fn test_parse_quote_insufficient_fields() {
    let text = "sh510050=1.0,2.0;";
    let result = parse_quote(text, 0);
    assert!(result.is_err());
}

#[test]
fn test_parse_international_quote_frame_yields_all_lines() {
    let text = "hf_OIL=91.724,,92.420,92.490,98.980,86.090,05:59:57,99.390,98.450,0,10,12,2026-04-18,布伦特原油,582877\nhf_GC=4844.320,,4848.800,4849.700,4917.700,4785.900,04:59:59,4808.300,4811.800,0,2,1,2026-04-18,纽约黄金,0\n";

    let quotes: Vec<_> = quote_lines(text)
        .iter()
        .map(|line| parse_international_quote(line, 7))
        .collect::<Result<_, _>>()
        .unwrap();

    assert_eq!(quotes.len(), 2);
    assert_eq!(quotes[0].symbol, "hf_OIL");
    assert_eq!(quotes[0].prev_settle, "99.390");
    assert_eq!(quotes[1].symbol, "hf_GC");
    assert_eq!(quotes[1].prev_settle, "4808.300");
}

#[test]
fn international_quote_fields_and_errors() {
    let q = parse_international_quote(
        "hf_CL=\"80.5,,80.4,80.6,81,79,15:00:00,79.5,80.1,0,1,2,2026-04-18,原油,123\";",
        42,
    )
    .unwrap();
    assert_eq!(q.price, "80.5");
    assert_eq!(q.bid_price, "80.4");
    assert_eq!(q.ask_price, "80.6");
    assert_eq!(q.high, "81");
    assert_eq!(q.low, "79");
    assert_eq!(q.quote_time, "15:00:00");
    assert_eq!(q.open, "80.1");
    assert_eq!(q.date, "2026-04-18");
    assert_eq!(q.name, "原油");
    assert_eq!(q.volume, "123");
    assert_eq!(q.timestamp, 42);
    assert!(matches!(parse_international_quote("no equals", 0), Err(Error::Parse(_))));
    assert!(matches!(parse_international_quote("hf_X=\"\";", 0), Err(Error::ChannelClosed)));
    match parse_international_quote("hf_X=1,2,3", 0) {
        Err(e) => assert_eq!(e, Error::Parse("insufficient fields: 3".to_string())),
        Ok(_) => panic!("three fields are not a quote"),
    }
}

#[test]
fn international_ws_url_prefixes_codes() {
    assert_eq!(
        build_international_ws_url(&["hf_CL", "gc"]),
        "ws://w.sinajs.cn/wskt?list=hf_CL,hf_GC"
    );
    assert_eq!(
        build_international_url(&["hf_CL", "gc"]),
        "https://hq.sinajs.cn/?list=hf_CL,hf_GC"
    );
}

#[test]
fn polled_quote_price_falls_back_to_field_eight() {
    let q = parse_polled("var hq_str_hf_CL=\"hf_CL,,2,3,4,5,6,7,80.5,99\";", 5).unwrap();
    assert_eq!(q.symbol, "hf_CL");
    assert_eq!(q.price, "80.5");
    assert_eq!(q.volume, "99");
    assert!(parse_polled("nothing", 0).is_err());
}

#[test]
fn polled_quote_errors_name_their_cause() {
    let messages: Vec<String> = ["nothing", "var hq_str_hf_CL=\"\";", "var hq_str_hf_CL=\"a,b\";"]
        .iter()
        .map(|t| match parse_polled(t, 0) {
            Err(sina_quotes::poll::Error::Parse(m)) => m,
            Ok(_) => String::from("ok"),
        })
        .collect();
    assert_eq!(messages, vec!["no =\" pattern", "empty data", "insufficient fields: 2"]);
}

#[test]
fn ws_target_splits_address_and_path() {
    let t = ws_target("ws://w.sinajs.cn/wskt?list=hf_CL").unwrap();
    assert_eq!(t.addr, "w.sinajs.cn:80");
    assert_eq!(t.path_with_query, "/wskt?list=hf_CL");
    let t2 = ws_target("ws://example.com:8080/feed").unwrap();
    assert_eq!(t2.addr, "example.com:8080");
    assert_eq!(t2.path_with_query, "/feed");
    assert!(matches!(ws_target("not a url"), Err(Error::Connect(_))));
    assert_eq!(ws_target("data:text/plain,x"), Err(Error::Connect("no host".to_string())));
}

#[test]
fn reconnect_machine_gives_up_after_max_attempts() {
    let mut m = ReconnectMachine::new(2);
    assert_eq!(m.step(WsEvent::Started, false), (vec![WsState::Connecting], WsAction::Connect));
    assert_eq!(m.step(WsEvent::Connected, false), (vec![WsState::Connected], WsAction::Stream));
    assert_eq!(
        m.step(WsEvent::StreamEnded, false),
        (vec![WsState::Reconnecting { attempt: 1 }], WsAction::Sleep)
    );
    assert_eq!(
        m.step(WsEvent::Slept, false),
        (vec![WsState::Reconnecting { attempt: 1 }], WsAction::Connect)
    );
    assert_eq!(m.step(WsEvent::ConnectFailed, false), (vec![], WsAction::Sleep));
    assert_eq!(
        m.step(WsEvent::Slept, false),
        (vec![WsState::Reconnecting { attempt: 2 }], WsAction::Connect)
    );
    assert_eq!(
        m.step(WsEvent::ConnectFailed, false),
        (vec![WsState::Disconnected], WsAction::Stop)
    );
    assert_eq!(m.phase, WsPhase::Stopped);
    assert_eq!(m.step(WsEvent::Started, false), (vec![], WsAction::Stop));
}

#[test]
fn reconnect_machine_stops_when_closed() {
    let mut m = ReconnectMachine::new(5);
    assert_eq!(m.step(WsEvent::Started, true), (vec![WsState::Disconnected], WsAction::Stop));
    let mut m2 = ReconnectMachine::new(5);
    m2.step(WsEvent::Started, false);
    m2.step(WsEvent::ConnectFailed, false);
    assert_eq!(m2.step(WsEvent::Slept, true), (vec![], WsAction::Stop));
    let mut m3 = ReconnectMachine::new(0);
    m3.step(WsEvent::Started, false);
    assert_eq!(
        m3.step(WsEvent::ConnectFailed, false),
        (vec![WsState::Reconnecting { attempt: 1 }, WsState::Disconnected], WsAction::Stop)
    );
}

#[test]
fn international_feed_detection() {
    assert!(uses_international_feed(&["sh510050".to_string(), "hf_CL".to_string()]));
    assert!(!uses_international_feed(&["sh510050".to_string()]));
    assert!(!uses_international_feed(&[]));
}
