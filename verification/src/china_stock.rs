//! Rules of the Chinese stock-market simulator: its error values, data-feed
//! configuration, the names it gives to symbols, and the checks it applies to
//! connections, cancellations and orders.
use vstd::prelude::*;

use crate::keyed::str_eq;

verus! {

/// Errors of the simulator, each with its message.
#[derive(Debug, Clone, PartialEq, Eq)]
pub enum ChinaStockError {
    Api(String),
    Auth(String),
    Validation(String),
}

impl ChinaStockError {
    /// The text this error displays: its kind, then its message.
    pub fn message(&self) -> (s: String)
        ensures
            s@ == (match self {
                ChinaStockError::Api(m) => "API error: "@ + m@,
                ChinaStockError::Auth(m) => "Authentication error: "@ + m@,
                ChinaStockError::Validation(m) => "Validation error: "@ + m@,
            }),
    {
        match self {
            ChinaStockError::Api(m) => {
                let mut s = "API error: ".to_owned();
                s.append(m.as_str());
                s
            },
            ChinaStockError::Auth(m) => {
                let mut s = "Authentication error: ".to_owned();
                s.append(m.as_str());
                s
            },
            ChinaStockError::Validation(m) => {
                let mut s = "Validation error: ".to_owned();
                s.append(m.as_str());
                s
            },
        }
    }
}

/// Where real-time market data comes from.
#[derive(Debug, Clone, PartialEq, Eq)]
pub enum DataSource {
    Tushare,
    AkShare,
    Baostock,
    Custom { url: String },
}

/// A real-time market-data feed: its source and the key that opens it.
#[derive(Clone)]
pub struct RealTimeDataFeed {
    pub data_source: DataSource,
    pub api_key: String,
}

impl RealTimeDataFeed {
    /// A feed from `data_source`, opened with `api_key`.
    pub fn new(data_source: DataSource, api_key: String) -> (f: Self)
        ensures
            f.data_source == data_source,
            f.api_key == api_key,
    {
        Self { data_source, api_key }
    }
}

/// The company name the simulator shows for a symbol: the three symbols it
/// knows by name, and "Company for <symbol>" for any other.
pub open spec fn spec_company_name(symbol: Seq<char>) -> Seq<char> {
    if symbol == "000001.SZ"@ {
        "Ping An Bank"@
    } else if symbol == "600519.SH"@ {
        "Kweichow Moutai"@
    } else if symbol == "002594.SZ"@ {
        "BYD Co."@
    } else {
        "Company for "@ + symbol
    }
}

/// The company name for `symbol`.
pub fn company_name(symbol: &str) -> (name: String)
    ensures
        name@ == spec_company_name(symbol@),
{
    if str_eq(symbol, "000001.SZ") {
        "Ping An Bank".to_owned()
    } else if str_eq(symbol, "600519.SH") {
        "Kweichow Moutai".to_owned()
    } else if str_eq(symbol, "002594.SZ") {
        "BYD Co.".to_owned()
    } else {
        let mut s = "Company for ".to_owned();
        s.append(symbol);
        s
    }
}

/// Connecting needs an API key: without one the connection is refused.
pub fn connection_result(api_key: &str) -> (r: Result<bool, ChinaStockError>)
    ensures
        api_key@.len() == 0 <==> r is Err,
        r matches Ok(b) ==> b,
        r matches Err(e) ==> (e matches ChinaStockError::Auth(m) && m@ == "API key is required"@),
{
    if api_key.unicode_len() == 0 {
        Err(ChinaStockError::Auth("API key is required".to_owned()))
    } else {
        Ok(true)
    }
}

/// Canceling succeeds for a known order and reports any other as not found.
pub fn cancel_result(order_known: bool, order_id: &str) -> (r: Result<bool, ChinaStockError>)
    ensures
        order_known ==> r matches Ok(true),
        !order_known ==> (r matches Err(ChinaStockError::Api(m)) && m@ == "Order "@ + order_id@
            + " not found"@),
{
    if order_known {
        Ok(true)
    } else {
        let mut m = "Order ".to_owned();
        m.append(order_id);
        m.append(" not found");
        Err(ChinaStockError::Api(m))
    }
}

/// An order must be for at least one share.
pub fn check_quantity(quantity: u32) -> (r: Result<(), ChinaStockError>)
    ensures
        quantity == 0 <==> r is Err,
        r matches Err(e) ==> (e matches ChinaStockError::Validation(m) && m@
            == "Quantity must be greater than 0"@),
{
    if quantity == 0 {
        Err(ChinaStockError::Validation("Quantity must be greater than 0".to_owned()))
    } else {
        Ok(())
    }
}


/// The character of decimal digit `d` (`d < 10`).
pub open spec fn digit_char(d: int) -> char {
    ('0' as int + d) as char
}

/// The decimal digits of `n`, most significant first, without leading zeros.
pub open spec fn decimal_digits(n: nat) -> Seq<char>
    decreases n,
{
    if n < 10 {
        seq![digit_char(n as int)]
    } else {
        decimal_digits(n / 10) + seq![digit_char((n % 10) as int)]
    }
}

/// `n` written in decimal, with a leading `-` when negative.
pub open spec fn decimal(n: int) -> Seq<char> {
    if n < 0 {
        seq!['-'] + decimal_digits((-n) as nat)
    } else {
        decimal_digits(n as nat)
    }
}

fn digit_text(d: u64) -> (s: &'static str)
    requires
        d < 10,
    ensures
        s@ == seq![digit_char(d as int)],
{
    proof {
        reveal_strlit("0");
        reveal_strlit("1");
        reveal_strlit("2");
        reveal_strlit("3");
        reveal_strlit("4");
        reveal_strlit("5");
        reveal_strlit("6");
        reveal_strlit("7");
        reveal_strlit("8");
        reveal_strlit("9");
    }
    let s = if d == 0 {
        "0"
    } else if d == 1 {
        "1"
    } else if d == 2 {
        "2"
    } else if d == 3 {
        "3"
    } else if d == 4 {
        "4"
    } else if d == 5 {
        "5"
    } else if d == 6 {
        "6"
    } else if d == 7 {
        "7"
    } else if d == 8 {
        "8"
    } else {
        "9"
    };
    assert(s@ =~= seq![digit_char(d as int)]);
    s
}

/// Appends the decimal digits of `n` to `out`.
fn append_digits(out: &mut String, n: u64)
    ensures
        final(out)@ == old(out)@ + decimal_digits(n as nat),
    decreases n,
{
    if n >= 10 {
        append_digits(out, n / 10);
    }
    out.append(digit_text(n % 10));
    proof {
        if n >= 10 {
            assert(decimal_digits(n as nat) == decimal_digits((n / 10) as nat) + seq![digit_char((n % 10) as int)]);
        }
    }
}

/// `n` written in decimal.
pub fn decimal_text(n: i64) -> (s: String)
    ensures
        s@ == decimal(n as int),
{
    let mut s = String::new();
    if n < 0 {
        proof {
            reveal_strlit("-");
        }
        s.append("-");
        let m: u64 = if n == i64::MIN { 0x8000_0000_0000_0000u64 } else { (-n) as u64 };
        append_digits(&mut s, m);
        assert(s@ =~= seq!['-'] + decimal_digits((-n) as nat));
    } else {
        append_digits(&mut s, n as u64);
        assert(s@ =~= decimal_digits(n as nat));
    }
    s
}

/// The check a sell order passes: the account must hold the symbol, and the
/// quantity (read as `i32`) must not exceed the shares available.
pub fn check_sell(quantity: u32, available: Option<i32>, symbol: &str) -> (r: Result<(), ChinaStockError>)
    ensures
        match available {
            None => r matches Err(ChinaStockError::Validation(m)) && m@
                == "No position found for symbol: "@ + symbol@,
            Some(av) => if (quantity as i32) > av {
                r matches Err(ChinaStockError::Validation(m)) && m@ == "Insufficient shares to sell: need "@
                    + decimal(quantity as int) + ", available "@ + decimal(av as int)
            } else {
                r is Ok
            },
        },
{
    match available {
        None => {
            let mut m = "No position found for symbol: ".to_owned();
            m.append(symbol);
            Err(ChinaStockError::Validation(m))
        },
        Some(av) => {
            if (quantity as i32) > av {
                let mut m = "Insufficient shares to sell: need ".to_owned();
                m.append(decimal_text(quantity as i64).as_str());
                m.append(", available ");
                m.append(decimal_text(av as i64).as_str());
                Err(ChinaStockError::Validation(m))
            } else {
                Ok(())
            }
        },
    }
}

} // verus!
