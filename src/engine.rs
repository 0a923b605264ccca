//! The decisions of a pair's ingestion loop: what to do with each message
//! read from the bus and with each transport failure. The loop itself, which
//! reads, publishes, stores offsets and sleeps, runs outside the library and
//! carries out the returned `Step`.

use vstd::prelude::*;

use crate::journal::{command_of, Command, JournalEvent, SpotLog};
use crate::order_book::{applied, applied_events, stamped, BookView, OrderBook};
use crate::topic::{group_id, topic_label, topic_name, Topic};

verus! {

/// Decode failures of one message before it goes to the dead-letter sink.
pub const MAX_DECODE_ATTEMPTS: u32 = 3;

/// First reconnect delay after a transport error, in milliseconds.
pub const INITIAL_BACKOFF_MS: u64 = 1000;

/// Longest reconnect delay, in milliseconds.
pub const MAX_BACKOFF_MS: u64 = 30000;

/// How the loop retries.
#[derive(Debug, Clone, Copy, PartialEq, Eq, Structural)]
pub struct RetryPolicy {
    pub max_decode_attempts: u32,
    pub initial_backoff_ms: u64,
    pub max_backoff_ms: u64,
}

/// The delay after `current`: doubled, up to the policy's cap.
pub open spec fn next_delay(p: RetryPolicy, current: u64) -> u64 {
    if 2 * current >= p.max_backoff_ms {
        p.max_backoff_ms
    } else {
        (2 * current) as u64
    }
}

impl RetryPolicy {
    /// Three decode attempts; reconnect after 1 s, doubling up to 30 s.
    pub fn standard() -> (r: RetryPolicy)
        ensures
            r.max_decode_attempts == MAX_DECODE_ATTEMPTS,
            r.initial_backoff_ms == INITIAL_BACKOFF_MS,
            r.max_backoff_ms == MAX_BACKOFF_MS,
    {
        RetryPolicy {
            max_decode_attempts: MAX_DECODE_ATTEMPTS,
            initial_backoff_ms: INITIAL_BACKOFF_MS,
            max_backoff_ms: MAX_BACKOFF_MS,
        }
    }

    /// The reconnect delay that follows `current`.
    pub fn next_backoff(&self, current: u64) -> (r: u64)
        ensures
            r == next_delay(*self, current),
    {
        if current > u64::MAX / 2 {
            self.max_backoff_ms
        } else if 2 * current >= self.max_backoff_ms {
            self.max_backoff_ms
        } else {
            2 * current
        }
    }
}

/// What the loop does next.
#[derive(Debug)]
pub enum Step {
    /// Publish the events with `key` as message key, then store the
    /// message's offset.
    Publish { key: u64, events: Vec<JournalEvent> },
    /// The message asks for nothing: store its offset.
    Skip,
    /// The message could not be decoded: leave its offset and read it again.
    Retry,
    /// The message could not be decoded, too often: send it to the
    /// dead-letter sink, then store its offset.
    DeadLetter,
    /// Wait `delay_ms`, then reconnect.
    Reconnect { delay_ms: u64 },
}

/// The order id that a command concerns; it keys the published events.
pub open spec fn command_key(cmd: Command) -> u64 {
    match cmd {
        Command::NewOrder(o) => o.id,
        Command::CancelOrder { id, .. } => id,
    }
}

/// The ingestion state of one trading pair: its book and its retry
/// counters.
pub struct Engine {
    symbol: String,
    base_coin: String,
    quote_coin: String,
    order_book: OrderBook,
    policy: RetryPolicy,
    decode_failures: u32,
    backoff_ms: u64,
}

impl Engine {
    /// The engine's book.
    pub closed spec fn book_view(&self) -> BookView {
        self.order_book@
    }

    /// The engine's retry policy.
    pub closed spec fn policy_view(&self) -> RetryPolicy {
        self.policy
    }

    /// Failed decodes of the current message so far.
    pub closed spec fn failures_view(&self) -> u32 {
        self.decode_failures
    }

    /// The delay of the next reconnect.
    pub closed spec fn backoff_view(&self) -> u64 {
        self.backoff_ms
    }

    /// The pair's symbol.
    pub closed spec fn symbol_view(&self) -> Seq<char> {
        self.symbol@
    }

    /// The pair's base and quote coins.
    pub closed spec fn coins_view(&self) -> (Seq<char>, Seq<char>) {
        (self.base_coin@, self.quote_coin@)
    }

    /// The engine's invariant.
    pub closed spec fn wf(&self) -> bool {
        &&& self.order_book.wf()
        &&& self.decode_failures == 0 || self.decode_failures < self.policy.max_decode_attempts
    }

    /// A fresh engine for the pair `base_coin`/`quote_coin` with an empty
    /// book and the standard retry policy.
    pub fn new(symbol: String, base_coin: String, quote_coin: String) -> (r: Engine)
        ensures
            r.wf(),
            r.book_view().bids.len() == 0,
            r.book_view().asks.len() == 0,
            r.book_view().next_seq == 1,
            r.policy_view().max_decode_attempts == MAX_DECODE_ATTEMPTS,
            r.policy_view().initial_backoff_ms == INITIAL_BACKOFF_MS,
            r.policy_view().max_backoff_ms == MAX_BACKOFF_MS,
            r.failures_view() == 0,
            r.backoff_view() == INITIAL_BACKOFF_MS,
            r.coins_view() == (base_coin@, quote_coin@),
            r.symbol_view() == symbol@,
    {
        let policy = RetryPolicy::standard();
        Engine {
            symbol,
            base_coin,
            quote_coin,
            order_book: OrderBook::new(),
            policy,
            decode_failures: 0,
            backoff_ms: policy.initial_backoff_ms,
        }
    }

    /// The pair's symbol.
    pub fn symbol(&self) -> (r: &String)
        ensures
            r@ == self.symbol_view(),
    {
        &self.symbol
    }

    /// The engine's book, for read-only queries.
    pub fn order_book(&self) -> (r: &OrderBook)
        ensures
            r@ == self.book_view(),
    {
        &self.order_book
    }

    /// The topic that the loop reads commands from.
    pub fn input_topic(&self) -> (r: String)
        ensures
            r@ == self.coins_view().0 + "_"@ + self.coins_view().1 + "_"@ + topic_label(Topic::SpotNewOrder),
    {
        topic_name(self.base_coin.as_str(), self.quote_coin.as_str(), Topic::SpotNewOrder)
    }

    /// The topic that the loop publishes events to.
    pub fn output_topic(&self) -> (r: String)
        ensures
            r@ == self.coins_view().0 + "_"@ + self.coins_view().1 + "_"@ + topic_label(Topic::SpotMatchResult),
    {
        topic_name(self.base_coin.as_str(), self.quote_coin.as_str(), Topic::SpotMatchResult)
    }

    /// The loop's consumer group.
    pub fn group_id(&self) -> (r: String)
        ensures
            r@ == self.coins_view().0 + "_"@ + self.coins_view().1 + "_group"@,
    {
        group_id(self.base_coin.as_str(), self.quote_coin.as_str())
    }

    /// Whether the book can take another command: its sequence numbers are
    /// not exhausted.
    pub fn can_apply(&self) -> (r: bool)
        ensures
            r == (self.book_view().next_seq < u64::MAX),
    {
        self.order_book.next_seq() < u64::MAX
    }

    /// Decides what to do with one message: `None` if its payload could not
    /// be decoded. A decoded command is applied to the book and its events
    /// are published; a message that asks for nothing is skipped; a payload
    /// that fails to decode is read again until it has failed
    /// `max_decode_attempts` times, and then goes to the dead-letter sink.
    pub fn on_message(&mut self, message: Option<SpotLog>, now: u64) -> (r: Step)
        requires
            old(self).wf(),
            old(self).book_view().next_seq < u64::MAX,
        ensures
            final(self).wf(),
            final(self).policy_view() == old(self).policy_view(),
            final(self).coins_view() == old(self).coins_view(),
            message is None && old(self).failures_view() + 1 < old(self).policy_view().max_decode_attempts ==> r is Retry
                && final(self).failures_view() == old(self).failures_view() + 1,
            message is None && old(self).failures_view() + 1 >= old(self).policy_view().max_decode_attempts ==> r is DeadLetter
                && final(self).failures_view() == 0,
            message is None ==> final(self).book_view() == old(self).book_view() && final(self).backoff_view()
                == old(self).backoff_view(),
            message is Some && command_of(message->Some_0) is None ==> r is Skip && final(self).book_view() == old(
                self,
            ).book_view() && final(self).failures_view() == 0 && final(self).backoff_view() == old(self).backoff_view(),
            message is Some && command_of(message->Some_0) is Some ==> ({
                let cmd = command_of(message->Some_0)->Some_0;
                &&& r matches Step::Publish { key, events } && key == command_key(cmd) && events@ == stamped(
                    applied_events(old(self).book_view(), cmd, now),
                    old(self).book_view().next_seq,
                )
                &&& final(self).book_view() == applied(old(self).book_view(), cmd, now)
                &&& final(self).failures_view() == 0
                &&& final(self).backoff_view() == old(self).policy_view().initial_backoff_ms
            }),
    {
        match message {
            None => {
                let n = self.decode_failures + 1;
                if n >= self.policy.max_decode_attempts {
                    self.decode_failures = 0;
                    Step::DeadLetter
                } else {
                    self.decode_failures = n;
                    Step::Retry
                }
            },
            Some(log) => {
                self.decode_failures = 0;
                match log.to_command() {
                    None => Step::Skip,
                    Some(cmd) => {
                        let key = match cmd {
                            Command::NewOrder(o) => o.id,
                            Command::CancelOrder { id, .. } => id,
                        };
                        let events = self.order_book.apply(cmd, now);
                        self.backoff_ms = self.policy.initial_backoff_ms;
                        Step::Publish { key, events }
                    },
                }
            },
        }
    }

    /// Decides what to do after the bus failed: reconnect after the current
    /// delay, and double the delay for the next failure, up to the cap.
    pub fn on_transport_error(&mut self) -> (r: Step)
        requires
            old(self).wf(),
        ensures
            final(self).wf(),
            r matches Step::Reconnect { delay_ms } && delay_ms == old(self).backoff_view(),
            final(self).backoff_view() == next_delay(old(self).policy_view(), old(self).backoff_view()),
            final(self).book_view() == old(self).book_view(),
            final(self).failures_view() == old(self).failures_view(),
            final(self).policy_view() == old(self).policy_view(),
            final(self).coins_view() == old(self).coins_view(),
    {
        let delay_ms = self.backoff_ms;
        self.backoff_ms = self.policy.next_backoff(delay_ms);
        Step::Reconnect { delay_ms }
    }
}

} // verus!
