use bybit_api::utils::{
    extract_bybit_info, option_tickers_query, parse_expiration_date,
    BybitInfo, BybitPosition, OptionType, UtcDateTime, OPTION_TICKERS_URL,
};

fn at_eight(year: i32, month: u32, day: u32) -> UtcDateTime {
    UtcDateTime { year, month, day, hour: 8, minute: 0, second: 0 }
}

#[test]
fn expiration_date_is_eight_utc() {
    assert_eq!(parse_expiration_date("27DEC24"), at_eight(2024, 12, 27));
    assert_eq!(parse_expiration_date("28MAR25"), at_eight(2025, 3, 28));
    assert_eq!(parse_expiration_date("1JAN25"), at_eight(2025, 1, 1));
}

#[test]
fn call_with_quote() {
    let info = extract_bybit_info("BTC-27DEC24-100000-C-USDT").unwrap();
    assert_eq!(
        info,
        BybitInfo {
            base: "BTC".to_string(),
            expire: at_eight(2024, 12, 27),
            strike_price: "100000".to_string(),
            opt_type: OptionType::Call,
            quote: Some("USDT".to_string()),
        }
    );
}

#[test]
fn put_without_quote() {
    let info = extract_bybit_info("ETH-28MAR25-3000-P").unwrap();
    assert_eq!(info.base, "ETH");
    assert_eq!(info.expire, at_eight(2025, 3, 28));
    assert_eq!(info.strike_price, "3000");
    assert_eq!(info.opt_type, OptionType::Put);
    assert_eq!(info.quote, None);
}

#[test]
fn decimal_strike_price() {
    let info = extract_bybit_info("SOL-3JAN25-150.5-C").unwrap();
    assert_eq!(info.strike_price, "150.5");
    assert_eq!(info.expire, at_eight(2025, 1, 3));
    assert_eq!(info.opt_type, OptionType::Call);
}

#[test]
fn symbol_found_inside_text() {
    let info = extract_bybit_info("option BTC-27DEC24-90000-P-USDT here").unwrap();
    assert_eq!(info.base, "BTC");
    assert_eq!(info.strike_price, "90000");
    assert_eq!(info.opt_type, OptionType::Put);
    assert_eq!(info.quote, Some("USDT".to_string()));
}

#[test]
fn not_an_option_symbol() {
    assert_eq!(extract_bybit_info("BTCUSDT"), None);
    assert_eq!(extract_bybit_info(""), None);
    assert_eq!(extract_bybit_info("BTC-27DEC24-100000-X"), None);
}

#[test]
fn expiry_that_is_no_date() {
    // matches the pattern, but the expiry is not a day, month and year
    assert_eq!(extract_bybit_info("BTC-99ZZZ99-100-C"), None);
    assert_eq!(extract_bybit_info("BTC-31FEB25-100-C"), None);
}

#[test]
fn not_a_real_date() {
    assert_eq!(extract_bybit_info("BTC-31FEB24-60000-C"), None);
    assert_eq!(extract_bybit_info("BTC-29FEB23-60000-C"), None);
    assert!(extract_bybit_info("BTC-29FEB24-60000-C").is_some());
}

#[test]
fn fields_are_pieces_of_the_symbol() {
    let symbol = "DOGE-7FEB25-0.25-P";
    let info = extract_bybit_info(symbol).unwrap();
    assert!(symbol.contains(info.base.as_str()));
    assert!(symbol.contains(info.strike_price.as_str()));
    assert_eq!(info.strike_price, "0.25");
}

#[test]
fn position_holds_info() {
    let info = extract_bybit_info("BTC-27DEC24-100000-C").unwrap();
    let pos = BybitPosition { bybit_info: info.clone(), side: true };
    assert_eq!(pos.bybit_info, info);
    assert!(pos.side);
}

#[test]
fn tickers_query() {
    let q = option_tickers_query("BTC");
    assert_eq!(
        q,
        vec![
            ("category".to_string(), "option".to_string()),
            ("baseCoin".to_string(), "BTC".to_string())
        ]
    );
    assert_eq!(OPTION_TICKERS_URL, "https://api.bybit.com/v5/market/tickers");
}

#[test]
fn plain_symbols_round_trip() {
    for (b, d, s, side, date) in [
        ("BTC", "30DEC22", "100000", "C", at_eight(2022, 12, 30)),
        ("ETH_2", "1JAN25", "150.5", "P", at_eight(2025, 1, 1)),
        ("x9", "28mar25", "7.", "C", at_eight(2025, 3, 28)),
    ] {
        let opt_type = if side == "C" { OptionType::Call } else { OptionType::Put };
        let plain = format!("{b}-{d}-{s}-{side}");
        assert_eq!(
            extract_bybit_info(&plain),
            Some(BybitInfo {
                base: b.to_string(),
                expire: date,
                strike_price: s.to_string(),
                opt_type,
                quote: None
            })
        );
        assert_eq!(parse_expiration_date(d), date);
        let quoted = format!("{plain}-USDT");
        assert_eq!(
            extract_bybit_info(&quoted),
            Some(BybitInfo {
                base: b.to_string(),
                expire: date,
                strike_price: s.to_string(),
                opt_type,
                quote: Some("USDT".to_string())
            })
        );
    }
}
