use hmac::Mac;
use bybit_api::auth::generate_ws_signature;
use bybit_api::json::push_json_string;
use bybit_api::websocket::client::{
    auth_request_text, request_text, AUTH_EXPIRY_DELAY, MAINNET_WS_TRADE, TESTNET_WS_TRADE,
};
use bybit_api::websocket::fast_models::{CommandResponse, ExecutionResponse};
use bybit_api::websocket::{BybitError, BybitWebSocket};

fn topics(ts: &[&str]) -> Vec<String> {
    ts.iter().map(|t| t.to_string()).collect()
}

#[test]
fn public_client_starts_closed() {
    let ws = BybitWebSocket::public("wss://stream.bybit.com/v5/public/option");
    assert!(!ws.is_connected());
    assert_eq!(ws.socket_url(), "wss://stream.bybit.com/v5/public/option");
    assert_eq!(ws.secret(), None);
}

#[test]
fn connect_and_disconnect() {
    let mut ws = BybitWebSocket::public("wss://x");
    assert!(!ws.connection_opened());
    assert!(ws.is_connected());
    assert_eq!(ws.disconnect(), Ok(()));
    assert!(!ws.is_connected());

    let mut p = BybitWebSocket::private("key", "secret", "wss://x");
    assert!(p.connection_opened());
    assert!(p.is_connected());
}

#[test]
fn subscribe_frame() {
    let mut ws = BybitWebSocket::public("wss://x");
    let frame = ws.subscribe_with_id(&topics(&["tickers.BTC-27DEC24-100000-C", "orderbook.1.BTC"]), 3, "r1");
    assert_eq!(
        frame,
        r#"{"req_id":"r1","op":"subscribe","args":["tickers.BTC-27DEC24-100000-C","orderbook.1.BTC"]}"#
    );
}

#[test]
fn unsubscribe_frame() {
    let mut ws = BybitWebSocket::public("wss://x");
    let frame = ws.unsubscribe_with_id(&topics(&["a"]), "r2");
    assert_eq!(frame, r#"{"req_id":"r2","op":"unsubscribe","args":["a"]}"#);
    let empty = ws.unsubscribe_with_id(&topics(&[]), "r3");
    assert_eq!(empty, r#"{"req_id":"r3","op":"unsubscribe","args":[]}"#);
}

#[test]
fn fresh_request_ids() {
    let mut ws = BybitWebSocket::public("wss://x");
    let f1 = ws.subscribe(&topics(&["a"]), 1);
    let f2 = ws.subscribe(&topics(&["a"]), 2);
    let prefix = r#"{"req_id":""#;
    let suffix = r#"","op":"subscribe","args":["a"]}"#;
    for f in [&f1, &f2] {
        assert!(f.starts_with(prefix));
        assert!(f.ends_with(suffix));
        assert_eq!(f.len(), prefix.len() + 36 + suffix.len());
    }
    assert_ne!(f1, f2);
    let u = ws.unsubscribe(&topics(&["a"]));
    assert!(u.ends_with(r#"","op":"unsubscribe","args":["a"]}"#));
    assert_eq!(u.len(), prefix.len() + 36 + r#"","op":"unsubscribe","args":["a"]}"#.len());
}

#[test]
fn escaped_topics() {
    let frame = request_text("i", "subscribe", &topics(&["a\"b\\c", "t\tn\nr\r", "\u{1}\u{1f}", "é"]));
    assert_eq!(
        frame,
        "{\"req_id\":\"i\",\"op\":\"subscribe\",\"args\":[\"a\\\"b\\\\c\",\"t\\tn\\nr\\r\",\"\\u0001\\u001f\",\"é\"]}"
    );
    let mut s = String::from("x");
    push_json_string(&mut s, "\u{8}\u{c}/");
    assert_eq!(s, "x\"\\b\\f/\"");
}

#[test]
fn trade_socket_gate() {
    let main = BybitWebSocket::private("k", "s", MAINNET_WS_TRADE);
    assert_eq!(main.ensure_trade_socket(), Ok(()));
    let test = BybitWebSocket::private("k", "s", TESTNET_WS_TRADE);
    assert_eq!(test.ensure_trade_socket(), Ok(()));
    assert_eq!(MAINNET_WS_TRADE, "wss://stream.bybit.com/v5/trade");
    assert_eq!(TESTNET_WS_TRADE, "wss://stream-testnet.bybit.com/v5/trade");

    let private = BybitWebSocket::private("k", "s", "wss://stream.bybit.com/v5/private");
    assert_eq!(
        private.ensure_trade_socket(),
        Err(BybitError::Parse("can t execute a trade on a non trade socket".to_string()))
    );
    let public = BybitWebSocket::public(MAINNET_WS_TRADE);
    assert!(public.ensure_trade_socket().is_err());
}

fn hmac_hex(key: &str, msg: &str) -> String {
    let mut m = hmac::Hmac::<sha2::Sha256>::new_from_slice(key.as_bytes()).unwrap();
    m.update(msg.as_bytes());
    m.finalize().into_bytes().iter().map(|b| format!("{:02x}", b)).collect()
}

#[test]
fn signature() {
    let sig = generate_ws_signature("my-secret", 1_700_000_010_000);
    assert_eq!(sig, hmac_hex("my-secret", "GET/realtime1700000010000"));
    assert_eq!(sig.len(), 64);
    assert!(sig.chars().all(|c| c.is_ascii_digit() || ('a'..='f').contains(&c)));
    assert_eq!(generate_ws_signature("k", 0), hmac_hex("k", "GET/realtime0"));
    assert_ne!(generate_ws_signature("k", 1), generate_ws_signature("k", 2));
    assert_ne!(generate_ws_signature("k1", 1), generate_ws_signature("k2", 1));
}

#[test]
fn authentication() {
    let public = BybitWebSocket::public("wss://x");
    assert_eq!(public.auth_expiry(1000), Err(BybitError::Auth("API key not set".to_string())));
    assert_eq!(public.auth_expiry(u64::MAX), Err(BybitError::Auth("API key not set".to_string())));
    assert_eq!(
        public.auth_message_with_id("r", 1),
        Err(BybitError::Auth("API key not set".to_string()))
    );

    let private = BybitWebSocket::private("my-key", "my-secret", "wss://x");
    assert_eq!(private.auth_expiry(1_700_000_000_000), Ok(1_700_000_000_000 + AUTH_EXPIRY_DELAY));
    assert_eq!(AUTH_EXPIRY_DELAY, 10000);
    assert_eq!(private.secret(), Some("my-secret".to_string()));
    let sig = hmac_hex("my-secret", "GET/realtime1700000010000");
    assert_eq!(
        private.auth_message_with_id("r9", 1_700_000_010_000).unwrap(),
        format!(r#"{{"req_id":"r9","op":"auth","args":["my-key",1700000010000,"{}"]}}"#, sig)
    );
    assert_eq!(
        auth_request_text("r", "my-key", 0, "s"),
        r#"{"req_id":"r","op":"auth","args":["my-key",0,"s"]}"#
    );
    let m = private.auth_message(7).unwrap();
    let tail = format!(r#"","op":"auth","args":["my-key",7,"{}"]}}"#, hmac_hex("my-secret", "GET/realtime7"));
    assert!(m.ends_with(&tail));
    assert_eq!(m.len(), r#"{"req_id":""#.len() + 36 + tail.len());
}

#[test]
fn models() {
    let c = CommandResponse {
        op: "subscribe".to_string(),
        ret_code: Some(0),
        ret_msg: None,
        success: Some(true),
        conn_id: Some("c1".to_string()),
    };
    assert_eq!(c.clone(), c);
    let e = ExecutionResponse { success: true, msg_type: "COMMAND_RESP".to_string(), conn_id: None };
    assert!(e.success);
}

#[test]
fn subscribe_registers_handlers() {
    let mut ws = BybitWebSocket::public("wss://x");
    ws.subscribe_with_id(&topics(&["a", "b"]), 7, "1");
    assert_eq!(ws.subscriptions(), &topics(&["a", "b"]));
    assert_eq!(ws.topic_handler("a"), Some(7));
    assert_eq!(ws.topic_handler("b"), Some(7));
    assert_eq!(ws.topic_handler("c"), None);
    // a second handler for "b" replaces the first; subscriptions keep duplicates
    ws.subscribe_with_id(&topics(&["b", "c"]), 9, "2");
    assert_eq!(ws.subscriptions(), &topics(&["a", "b", "b", "c"]));
    assert_eq!(ws.topic_handler("a"), Some(7));
    assert_eq!(ws.topic_handler("b"), Some(9));
    assert_eq!(ws.topic_handler("c"), Some(9));
}

#[test]
fn unsubscribe_removes_every_occurrence() {
    let mut ws = BybitWebSocket::public("wss://x");
    ws.subscribe_with_id(&topics(&["a", "b", "a", "c"]), 1, "1");
    ws.unsubscribe_with_id(&topics(&["a", "x"]), "2");
    assert_eq!(ws.subscriptions(), &topics(&["b", "c"]));
    assert_eq!(ws.topic_handler("a"), None);
    assert_eq!(ws.topic_handler("b"), Some(1));
    assert_eq!(ws.topic_handler("c"), Some(1));
}

#[test]
fn unsubscribe_undoes_subscribe() {
    let mut ws = BybitWebSocket::public("wss://x");
    ws.subscribe_with_id(&topics(&["a", "b"]), 1, "1");
    ws.subscribe_with_id(&topics(&["c", "d"]), 2, "2");
    ws.unsubscribe_with_id(&topics(&["c", "d"]), "3");
    assert_eq!(ws.subscriptions(), &topics(&["a", "b"]));
    assert_eq!(ws.topic_handler("a"), Some(1));
    assert_eq!(ws.topic_handler("b"), Some(1));
    assert_eq!(ws.topic_handler("c"), None);
    assert_eq!(ws.topic_handler("d"), None);
}

#[test]
fn unsubscribe_twice_is_once() {
    let mut ws = BybitWebSocket::public("wss://x");
    ws.subscribe_with_id(&topics(&["a", "b", "c"]), 4, "1");
    ws.unsubscribe_with_id(&topics(&["b"]), "2");
    let once = ws.subscriptions().clone();
    ws.unsubscribe_with_id(&topics(&["b"]), "3");
    assert_eq!(ws.subscriptions(), &once);
    assert_eq!(once, topics(&["a", "c"]));
    assert_eq!(ws.topic_handler("b"), None);
}

#[test]
fn state_untouched_by_frames() {
    let mut ws = BybitWebSocket::private("k", "s", MAINNET_WS_TRADE);
    ws.connection_opened();
    ws.subscribe_with_id(&topics(&["order"]), 5, "1");
    assert!(ws.is_connected());
    assert_eq!(ws.ensure_trade_socket(), Ok(()));
    assert_eq!(ws.secret(), Some("s".to_string()));
}

fn is_uuid_v4_text(id: &str) -> bool {
    let cs: Vec<char> = id.chars().collect();
    cs.len() == 36
        && cs.iter().enumerate().all(|(i, c)| {
            if [8, 13, 18, 23].contains(&i) {
                *c == '-'
            } else {
                c.is_ascii_digit() || ('a'..='f').contains(c)
            }
        })
        && cs[14] == '4'
        && ['8', '9', 'a', 'b'].contains(&cs[19])
}

#[test]
fn request_ids_are_uuid_v4() {
    let mut ws = BybitWebSocket::private("k", "s", "wss://x");
    let prefix = r#"{"req_id":""#;
    for _ in 0..20 {
        let f = ws.subscribe(&topics(&["a"]), 1);
        assert!(is_uuid_v4_text(&f[prefix.len()..prefix.len() + 36]));
        let u = ws.unsubscribe(&topics(&["a"]));
        assert!(is_uuid_v4_text(&u[prefix.len()..prefix.len() + 36]));
        let m = ws.auth_message(5).unwrap();
        assert!(is_uuid_v4_text(&m[prefix.len()..prefix.len() + 36]));
    }
}

#[test]
fn lost_connection_is_not_connected() {
    let mut ws = BybitWebSocket::public("wss://x");
    ws.connection_opened();
    assert!(ws.is_connected());
    ws.connection_lost();
    assert!(!ws.is_connected());
    ws.connection_opened();
    assert!(ws.is_connected());
}

#[test]
fn connected_iff_opened_and_not_closed_since() {
    let mut ws = BybitWebSocket::public("wss://x");
    assert!(!ws.is_connected());
    ws.connection_opened();
    ws.subscribe_with_id(&topics(&["a"]), 1, "1");
    ws.unsubscribe_with_id(&topics(&["a"]), "2");
    assert!(ws.is_connected());
    ws.disconnect().unwrap();
    ws.subscribe_with_id(&topics(&["b"]), 1, "3");
    assert!(!ws.is_connected());
    ws.connection_opened();
    ws.connection_opened();
    assert!(ws.is_connected());
    ws.connection_lost();
    ws.disconnect().unwrap();
    assert!(!ws.is_connected());
}

#[test]
fn handlers_in_use() {
    let mut ws = BybitWebSocket::public("wss://x");
    ws.subscribe_with_id(&topics(&["a", "b"]), 1, "1");
    ws.subscribe_with_id(&topics(&["b"]), 2, "2");
    assert!(ws.handler_in_use(1));
    assert!(ws.handler_in_use(2));
    assert!(!ws.handler_in_use(3));
    ws.subscribe_with_id(&topics(&["a"]), 2, "3");
    assert!(!ws.handler_in_use(1));
    ws.unsubscribe_with_id(&topics(&["a", "b"]), "4");
    assert!(!ws.handler_in_use(2));
}
