use pairs_trading::china_stock::{
    cancel_result, check_quantity, check_sell, company_name, connection_result, decimal_text,
    ChinaStockError, DataSource, RealTimeDataFeed,
};

#[test]
fn feed_keeps_source_and_key() {
    let f = RealTimeDataFeed::new(DataSource::Custom { url: "http://x".into() }, "key".into());
    assert_eq!(f.data_source, DataSource::Custom { url: "http://x".into() });
    assert_eq!(f.api_key, "key");
    let f = RealTimeDataFeed::new(DataSource::Tushare, String::new());
    assert_eq!(f.data_source, DataSource::Tushare);
}

#[test]
fn error_messages() {
    assert_eq!(ChinaStockError::Api("Account not found".into()).message(), "API error: Account not found");
    assert_eq!(ChinaStockError::Auth("x".into()).message(), "Authentication error: x");
    assert_eq!(ChinaStockError::Validation("y".into()).message(), "Validation error: y");
}

#[test]
fn company_names() {
    assert_eq!(company_name("000001.SZ"), "Ping An Bank");
    assert_eq!(company_name("600519.SH"), "Kweichow Moutai");
    assert_eq!(company_name("002594.SZ"), "BYD Co.");
    assert_eq!(company_name("300750.SZ"), "Company for 300750.SZ");
}

#[test]
fn connection_needs_api_key() {
    assert_eq!(connection_result("k").unwrap(), true);
    match connection_result("") {
        Err(e) => assert_eq!(e.message(), "Authentication error: API key is required"),
        Ok(_) => panic!("empty key accepted"),
    }
}

#[test]
fn cancel_reports_unknown_order() {
    assert_eq!(cancel_result(true, "ORDER_1").unwrap(), true);
    assert_eq!(
        cancel_result(false, "ORDER_9").unwrap_err(),
        ChinaStockError::Api("Order ORDER_9 not found".into())
    );
}

#[test]
fn order_checks() {
    assert!(check_quantity(1).is_ok());
    assert_eq!(
        check_quantity(0).unwrap_err(),
        ChinaStockError::Validation("Quantity must be greater than 0".into())
    );
    assert!(check_sell(100, Some(100), "600519.SH").is_ok());
    assert_eq!(
        check_sell(150, Some(100), "600519.SH").unwrap_err(),
        ChinaStockError::Validation("Insufficient shares to sell: need 150, available 100".into())
    );
    assert_eq!(
        check_sell(1, Some(-3), "600519.SH").unwrap_err(),
        ChinaStockError::Validation("Insufficient shares to sell: need 1, available -3".into())
    );
    assert_eq!(
        check_sell(10, None, "000001.SZ").unwrap_err(),
        ChinaStockError::Validation("No position found for symbol: 000001.SZ".into())
    );
}

#[test]
fn decimal_text_matches_std() {
    for n in [0i64, 7, 10, 99, 100, 12345, -1, -10, -907, i64::MAX, i64::MIN] {
        assert_eq!(decimal_text(n), n.to_string());
    }
}
