//! Names of the event-bus topics and consumer groups of a trading pair.

use vstd::prelude::*;
use vstd::string::StringExecFns;

verus! {

/// The topics of a pair.
#[derive(Debug, Clone, Copy, PartialEq, Eq, Structural)]
pub enum Topic {
    /// Inbound order commands.
    SpotNewOrder,
    /// Outbound journal events.
    SpotMatchResult,
}

/// The topic's name suffix.
pub open spec fn topic_label(t: Topic) -> Seq<char> {
    match t {
        Topic::SpotNewOrder => "SpotNewOrder"@,
        Topic::SpotMatchResult => "SpotMatchResult"@,
    }
}

impl Topic {
    /// The topic's name suffix.
    pub fn as_str(&self) -> (r: &'static str)
        ensures
            r@ == topic_label(*self),
    {
        match self {
            Topic::SpotNewOrder => "SpotNewOrder",
            Topic::SpotMatchResult => "SpotMatchResult",
        }
    }
}

/// `{base}_{quote}_{topic}`.
pub fn topic_name(base: &str, quote: &str, topic: Topic) -> (r: String)
    ensures
        r@ == base@ + "_"@ + quote@ + "_"@ + topic_label(topic),
{
    let s = base.to_owned().concat("_");
    let s = s.concat(quote);
    let s = s.concat("_");
    s.concat(topic.as_str())
}

/// `{base}_{quote}_group`, the consumer group of a pair.
pub fn group_id(base: &str, quote: &str) -> (r: String)
    ensures
        r@ == base@ + "_"@ + quote@ + "_group"@,
{
    let s = base.to_owned().concat("_");
    let s = s.concat(quote);
    s.concat("_group")
}

/// `{base}/{quote}`, the pair's symbol.
pub fn symbol_name(base: &str, quote: &str) -> (r: String)
    ensures
        r@ == base@ + "/"@ + quote@,
{
    let s = base.to_owned().concat("/");
    s.concat(quote)
}

} // verus!
