//! Market-data value types: trading symbols, feed errors and exchange
//! subscription messages.
use crate::text::{upper_of, uppercase};
use vstd::prelude::*;

verus! {

/// A trading pair such as "BTCUSDT", always held in upper case.
#[derive(Debug, Clone, PartialEq, Eq, Hash)]
pub struct Symbol(String);

impl Symbol {
    /// The symbol's text.
    pub closed spec fn spec_text(&self) -> Seq<char> {
        self.0@
    }

    /// The symbol for `symbol`, upper-cased.
    pub fn new(symbol: &str) -> (r: Self)
        ensures
            r.spec_text() == upper_of(symbol@),
    {
        Symbol(uppercase(symbol))
    }

    /// The symbol's text.
    pub fn as_str(&self) -> (r: &str)
        ensures
            r@ == self.spec_text(),
    {
        self.0.as_str()
    }
}

impl<'a> From<&'a str> for Symbol {
    fn from(s: &'a str) -> (r: Symbol)
        ensures
            r.spec_text() == upper_of(s@),
    {
        Symbol::new(s)
    }
}

impl<'a> vstd::std_specs::convert::FromSpecImpl<&'a str> for Symbol {
    // Two strings with the same text need not be equal values, so `from`
    // is described by its own `ensures` instead.
    open spec fn obeys_from_spec() -> bool {
        false
    }

    open spec fn from_spec(s: &'a str) -> Symbol {
        choose|r: Symbol| r.spec_text() == upper_of(s@)
    }
}

/// Errors of a market-data feed.
#[derive(Debug, Clone, PartialEq, Eq)]
pub enum MarketDataError {
    ConnectionError(String),
    InvalidMessage(String),
    WebSocketError(String),
    NetworkError(String),
    ReconnectionFailed(u32),
    SubscriptionError(String),
}

/// One channel of a Bitget subscription.
#[derive(Debug, Clone, PartialEq, Eq)]
pub struct BitgetSubscriptionArg {
    pub inst_type: String,
    pub channel: String,
    pub inst_id: String,
}

/// A Bitget WebSocket subscription request.
#[derive(Debug, Clone, PartialEq, Eq)]
pub struct BitgetSubscription {
    pub op: String,
    pub args: Vec<BitgetSubscriptionArg>,
}

impl BitgetSubscription {
    /// A request subscribing to the spot ticker channel of `symbol`
    /// (upper-cased).
    pub fn ticker(symbol: &str) -> (r: Self)
        ensures
            r.op@ == "subscribe"@,
            r.args@.len() == 1,
            r.args@[0].inst_type@ == "SPOT"@,
            r.args@[0].channel@ == "ticker"@,
            r.args@[0].inst_id@ == upper_of(symbol@),
    {
        let arg = BitgetSubscriptionArg {
            inst_type: "SPOT".to_owned(),
            channel: "ticker".to_owned(),
            inst_id: uppercase(symbol),
        };
        let mut args: Vec<BitgetSubscriptionArg> = Vec::new();
        args.push(arg);
        BitgetSubscription { op: "subscribe".to_owned(), args }
    }
}

} // verus!
