//! The engine's metrics and their registration.

use prometheus::{Histogram, HistogramOpts, IntCounter, Registry};
use vstd::prelude::*;

verus! {

/// The metrics registry of the `prometheus` crate, carried as it is.
#[verifier::external_type_specification]
#[verifier::external_body]
pub struct ExRegistry(Registry);

/// The histogram of the `prometheus` crate, carried as it is.
#[verifier::external_type_specification]
#[verifier::external_body]
pub struct ExHistogram(Histogram);

/// An integer counter of the `prometheus` crate. Its type has a parameter
/// bound by a trait of that crate, which Verus does not take in a
/// declaration, so the counter is kept behind this opaque type.
#[verifier::external_body]
#[derive(Debug)]
pub struct Counter {
    inner: IntCounter,
}

/// A character with which the name of a metric may begin: a letter of the
/// ASCII alphabet, an underscore or a colon.
pub open spec fn begins_name(c: char) -> bool {
    ('a' <= c && c <= 'z') || ('A' <= c && c <= 'Z') || c == '_' || c == ':'
}

/// A character with which the name of a metric may go on: one with which
/// it may begin, or an ASCII digit.
pub open spec fn continues_name(c: char) -> bool {
    begins_name(c) || ('0' <= c && c <= '9')
}

/// The `prometheus` crate takes a metric of this name and help text: the
/// help text is not empty, and the name is not empty, begins with a letter,
/// an underscore or a colon and goes on with these or with digits.
pub open spec fn describes_metric(name: Seq<char>, help: Seq<char>) -> bool {
    &&& help.len() > 0
    &&& name.len() > 0
    &&& begins_name(name[0])
    &&& forall|i: int| 0 < i < name.len() ==> continues_name(#[trigger] name[i])
}

/// Makes a counter with `IntCounter::new`, which describes it by the name
/// and the help text alone, without labels. The crate makes the counter
/// exactly if the help text is not empty and the name is a valid metric
/// name.
#[verifier::external_body]
fn new_counter(name: &str, help: &str) -> (counter: Option<Counter>)
    ensures
        counter.is_some() == describes_metric(name@, help@),
{
    IntCounter::new(name, help).ok().map(|inner| Counter { inner })
}

/// Makes a histogram with `Histogram::with_opts`, from the options that
/// `HistogramOpts::new` makes of the name and the help text: no labels, and
/// the crate's own buckets, which stand in increasing order. The crate
/// makes the histogram exactly if the help text is not empty and the name
/// is a valid metric name.
#[verifier::external_body]
fn new_histogram(name: &str, help: &str) -> (histogram: Option<Histogram>)
    ensures
        histogram.is_some() == describes_metric(name@, help@),
{
    Histogram::with_opts(HistogramOpts::new(name, help)).ok()
}

/// Hands a handle of the counter to `Registry::register` and says whether
/// the registry took it. The registry turns a collector away that it holds
/// already or whose description contradicts one it holds; nothing is
/// claimed of when that is.
#[verifier::external_body]
fn register_counter(registry: &Registry, counter: &Counter) -> (registered: bool) {
    registry.register(Box::new(counter.inner.clone())).is_ok()
}

/// Hands a handle of the histogram to `Registry::register` and says whether
/// the registry took it, as for a counter.
#[verifier::external_body]
fn register_histogram(registry: &Registry, histogram: &Histogram) -> (registered: bool) {
    registry.register(Box::new(histogram.clone())).is_ok()
}

/// Adds one to the counter with `IntCounter::inc`.
#[verifier::external_body]
pub(crate) fn increment(counter: &Counter) {
    counter.inner.inc()
}

/// The metrics of the engine.
#[derive(Debug)]
pub struct Metrics {
    /// The prices of the buy orders.
    pub buy_order_price: Histogram,
    /// The prices of the sell orders.
    pub sell_order_price: Histogram,
    /// The orders that were filled in full.
    pub orders_filled_counter: Counter,
    /// The orders that were received.
    pub order_counter: Counter,
    /// The trades that were made.
    pub trade_counter: Counter,
    /// The time that matching took, in seconds.
    pub matching_duration: Histogram,
}

impl Metrics {
    /// The engine's metrics, all at nought and registered nowhere. Every
    /// one of them has a name and a help text that the `prometheus` crate
    /// takes, so there always are metrics.
    pub fn new() -> (metrics: Option<Metrics>)
        ensures
            metrics.is_some(),
    {
        proof {
            reveal_strlit("buy_order_price");
            reveal_strlit("Buy order price");
            reveal_strlit("sell_order_price");
            reveal_strlit("Sell order price");
            reveal_strlit("orders_filled_counter");
            reveal_strlit("Number orders filled");
            reveal_strlit("order_counter");
            reveal_strlit("Number orders recieved");
            reveal_strlit("trade_counter");
            reveal_strlit("Number trades processed");
            reveal_strlit("matching_duration");
            reveal_strlit("Duration to match order with resting order");
        }
        let buy_order_price = new_histogram("buy_order_price", "Buy order price")?;
        let sell_order_price = new_histogram("sell_order_price", "Sell order price")?;
        let orders_filled_counter = new_counter("orders_filled_counter", "Number orders filled")?;
        let order_counter = new_counter("order_counter", "Number orders recieved")?;
        let trade_counter = new_counter("trade_counter", "Number trades processed")?;
        let matching_duration = new_histogram(
            "matching_duration",
            "Duration to match order with resting order",
        )?;
        Some(
            Metrics {
                buy_order_price,
                sell_order_price,
                orders_filled_counter,
                order_counter,
                trade_counter,
                matching_duration,
            },
        )
    }
}

/// One of the engine's metrics.
#[derive(Clone, Copy, Debug, PartialEq, Eq, Structural)]
pub enum Metric {
    SellOrderPrice,
    BuyOrderPrice,
    OrdersFilled,
    Orders,
    Trades,
    MatchingDuration,
}

/// What the registration of a metric reports, given whether the registry
/// took it.
pub fn registration_outcome(metric: Metric, registered: bool) -> (outcome: Result<(), Metric>)
    ensures
        outcome == (if registered {
            Ok::<(), Metric>(())
        } else {
            Err::<(), Metric>(metric)
        }),
{
    if registered {
        Ok(())
    } else {
        Err(metric)
    }
}

/// Registers the engine's metrics with the registry, one after the other,
/// and stops at the first that the registry turns away, which it names.
pub fn register_custom_metrics(registry: &Registry, metrics: &Metrics) -> (outcome: Result<
    (),
    Metric,
>) {
    registration_outcome(
        Metric::SellOrderPrice,
        register_histogram(registry, &metrics.sell_order_price),
    )?;
    registration_outcome(
        Metric::BuyOrderPrice,
        register_histogram(registry, &metrics.buy_order_price),
    )?;
    registration_outcome(
        Metric::OrdersFilled,
        register_counter(registry, &metrics.orders_filled_counter),
    )?;
    registration_outcome(Metric::Orders, register_counter(registry, &metrics.order_counter))?;
    registration_outcome(Metric::Trades, register_counter(registry, &metrics.trade_counter))?;
    registration_outcome(
        Metric::MatchingDuration,
        register_histogram(registry, &metrics.matching_duration),
    )
}

} // verus!
