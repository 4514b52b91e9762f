//! The configuration of the bridge, as typed values.

use crate::error::ConfigError;
use crate::retry::RetryPolicy;
use crate::text::{ascii_text, decimal, unsigned_string};
use vstd::prelude::*;
use vstd::string::*;

verus! {

/// How long the bridge waits, in milliseconds.
#[derive(Clone, Copy, Debug, PartialEq, Eq, Structural)]
pub struct Timeouts {
    /// For the webhook to answer one request.
    pub http_request_ms: u64,
    /// For the broker to answer one poll.
    pub broker_poll_ms: u64,
    /// For revoked partitions to drain.
    pub rebalance_drain_ms: u64,
    /// For all partitions to drain at shutdown.
    pub shutdown_grace_ms: u64,
}

impl Default for Timeouts {
    /// Ten seconds for a request, one for a poll, twenty-five for a
    /// rebalance and thirty for a shutdown.
    fn default() -> (timeouts: Timeouts)
        ensures
            timeouts == (Timeouts {
                http_request_ms: 10_000,
                broker_poll_ms: 1_000,
                rebalance_drain_ms: 25_000,
                shutdown_grace_ms: 30_000,
            }),
    {
        Timeouts {
            http_request_ms: 10_000,
            broker_poll_ms: 1_000,
            rebalance_drain_ms: 25_000,
            shutdown_grace_ms: 30_000,
        }
    }
}

/// One setting of the broker client.
#[derive(Clone, Debug, PartialEq, Eq)]
pub struct Property {
    pub name: String,
    pub value: String,
}

/// Everything the bridge is told at start.
#[derive(Clone, Debug)]
pub struct BridgeConfig {
    /// The broker endpoints.
    pub bootstrap: Vec<String>,
    /// The consumer group.
    pub group_id: String,
    /// The topics to consume.
    pub topics: Vec<String>,
    /// Where messages are posted.
    pub webhook_url: String,
    /// Where messages go that were given up.
    pub dead_letter_sink: String,
    /// The session timeout of the broker client, in milliseconds.
    pub session_timeout_ms: u64,
    /// The most partitions with a message in hand, where it is set.
    pub concurrency: Option<usize>,
    pub retry: RetryPolicy,
    pub timeouts: Timeouts,
    /// The longest response body that is not oversized, in bytes.
    pub max_response_bytes: u64,
}

/// The texts of a list of strings.
pub open spec fn texts(list: Seq<String>) -> Seq<Seq<char>> {
    Seq::new(list.len(), |i: int| list[i]@)
}

/// Whether a list is empty or holds an empty string.
pub open spec fn lacks_entries(list: Seq<String>) -> bool {
    list.len() == 0 || exists|i: int| 0 <= i < list.len() && (#[trigger] list[i])@.len() == 0
}

/// Whether a list is empty or holds an empty string.
fn has_no_entries(list: &Vec<String>) -> (lacking: bool)
    ensures
        lacking == lacks_entries(list@),
{
    if list.len() == 0 {
        return true;
    }
    let mut i: usize = 0;
    while i < list.len()
        invariant
            i <= list@.len(),
            forall|j: int| 0 <= j < i ==> (#[trigger] list@[j])@.len() != 0,
        decreases list@.len() - i,
    {
        if list[i].as_str().is_empty() {
            return true;
        }
        i = i + 1;
    }
    false
}

/// The parts in a row, with commas between them.
pub open spec fn comma_joined(parts: Seq<Seq<char>>) -> Seq<char>
    decreases parts.len(),
{
    if parts.len() == 0 {
        Seq::empty()
    } else if parts.len() == 1 {
        parts[0]
    } else {
        comma_joined(parts.drop_last()) + seq![','] + parts.last()
    }
}

/// The strings in a row, with commas between them.
pub fn join_with_commas(parts: &Vec<String>) -> (joined: String)
    ensures
        joined@ == comma_joined(texts(parts@)),
{
    let mut joined = String::new();
    let mut i: usize = 0;
    while i < parts.len()
        invariant
            i <= parts@.len(),
            joined@ == comma_joined(texts(parts@).take(i as int)),
        decreases parts@.len() - i,
    {
        proof {
            reveal_strlit(",");
            let all = texts(parts@);
            assert(all.take(i + 1).drop_last() =~= all.take(i as int));
            assert(all.take(i + 1).last() == parts@[i as int]@);
            assert(",".view() =~= seq![',']);
            if i == 0 {
                assert(Seq::<char>::empty() + parts@[i as int]@ =~= parts@[i as int]@);
            }
        }
        if i > 0 {
            joined.append(",");
        }
        joined.append(parts[i].as_str());
        i = i + 1;
    }
    assert(texts(parts@).take(i as int) =~= texts(parts@));
    joined
}

/// The position of the first comma of a text, and its length where it
/// has none.
pub open spec fn first_comma(text: Seq<char>) -> int
    decreases text.len(),
{
    if text.len() == 0 || text[0] == ',' {
        0
    } else {
        1 + first_comma(text.drop_first())
    }
}

/// The entries of a list that is written with commas between them: what
/// stands before the first comma, and the entries of what follows it. A
/// text without a comma is one entry, also where it is empty.
pub open spec fn comma_split(text: Seq<char>) -> Seq<Seq<char>>
    decreases text.len(),
{
    let i = first_comma(text);
    if 0 <= i < text.len() {
        seq![text.take(i)] + comma_split(text.skip(i + 1))
    } else {
        seq![text]
    }
}

proof fn lemma_first_comma(text: Seq<char>, k: int)
    requires
        0 <= k <= text.len(),
        forall|j: int| 0 <= j < k ==> text[j] != ',',
        k < text.len() ==> text[k] == ',',
    ensures
        first_comma(text) == k,
    decreases k,
{
    if k > 0 {
        let rest = text.drop_first();
        assert(text[0] != ',');
        assert forall|j: int| 0 <= j < k - 1 implies rest[j] != ',' by {
            assert(rest[j] == text[j + 1]);
        }
        if k - 1 < rest.len() {
            assert(rest[k - 1] == text[k]);
        }
        lemma_first_comma(rest, k - 1);
    }
}

proof fn lemma_joined_front(first: Seq<char>, rest: Seq<Seq<char>>)
    requires
        rest.len() > 0,
    ensures
        comma_joined(seq![first] + rest) == first + seq![','] + comma_joined(rest),
    decreases rest.len(),
{
    let all = seq![first] + rest;
    assert(all.last() == rest.last());
    if rest.len() == 1 {
        assert(all.drop_last() =~= seq![first]);
        assert(comma_joined(seq![first]) == first);
        assert(rest[0] == rest.last());
    } else {
        assert(all.drop_last() =~= seq![first] + rest.drop_last());
        lemma_joined_front(first, rest.drop_last());
        assert(first + seq![','] + comma_joined(rest.drop_last()) + seq![','] + rest.last()
            =~= first + seq![','] + (comma_joined(rest.drop_last()) + seq![','] + rest.last()));
    }
}

/// Joining the entries of a list with commas gives the list back as it was
/// written.
pub proof fn lemma_split_then_joined(text: Seq<char>)
    ensures
        comma_split(text).len() >= 1,
        comma_joined(comma_split(text)) == text,
    decreases text.len(),
{
    let i = first_comma(text);
    if 0 <= i < text.len() {
        let rest = text.skip(i + 1);
        lemma_split_then_joined(rest);
        lemma_joined_front(text.take(i), comma_split(rest));
        lemma_first_comma_is(text);
        assert(text.take(i) + seq![','] + rest =~= text);
    }
}

proof fn lemma_first_comma_is(text: Seq<char>)
    ensures
        0 <= first_comma(text) <= text.len(),
        first_comma(text) < text.len() ==> text[first_comma(text)] == ',',
    decreases text.len(),
{
    if !(text.len() == 0 || text[0] == ',') {
        lemma_first_comma_is(text.drop_first());
    }
}

/// Reads a list that is written with commas between its entries.
pub fn split_commas(text: &str) -> (list: Vec<String>)
    ensures
        texts(list@) == comma_split(text@),
{
    let n: usize = text.unicode_len();
    let mut list: Vec<String> = Vec::new();
    let mut start: usize = 0;
    let mut i: usize = 0;
    assert(text@.skip(0) =~= text@);
    assert(texts(list@) + comma_split(text@) =~= comma_split(text@));
    while i < n
        invariant
            n == text@.len(),
            start <= i <= n,
            forall|j: int| start <= j < i ==> text@[j] != ',',
            comma_split(text@) == texts(list@) + comma_split(text@.skip(start as int)),
        decreases n - i,
    {
        if text.get_char(i) == ',' {
            let entry = text.substring_char(start, i).to_owned();
            proof {
                let tail = text@.skip(start as int);
                lemma_first_comma(tail, i - start);
                assert(tail.take(i - start) =~= text@.subrange(start as int, i as int));
                assert(tail.skip(i - start + 1) =~= text@.skip(i + 1));
                assert(texts(list@.push(entry)) =~= texts(list@) + seq![entry@]);
                assert(texts(list@) + (seq![entry@] + comma_split(text@.skip(i + 1))) =~= texts(
                    list@,
                ) + seq![entry@] + comma_split(text@.skip(i + 1)));
            }
            list.push(entry);
            start = i + 1;
        }
        i = i + 1;
    }
    let entry = text.substring_char(start, n).to_owned();
    proof {
        let tail = text@.skip(start as int);
        lemma_first_comma(tail, n - start);
        assert(tail =~= text@.subrange(start as int, n as int));
        assert(texts(list@.push(entry)) =~= texts(list@) + seq![entry@]);
    }
    list.push(entry);
    list
}

impl BridgeConfig {
    /// What is wrong with the configuration, where something is: the first
    /// of a list of endpoints that is empty or holds an empty one, an empty
    /// group, a list of topics that is empty or holds an empty one, an empty
    /// webhook URL, an empty dead-letter destination, a retry policy without
    /// attempts, and a concurrency limit of zero.
    pub open spec fn fault(self) -> Option<ConfigError> {
        if lacks_entries(self.bootstrap@) {
            Some(ConfigError::NoBootstrapServers)
        } else if self.group_id@.len() == 0 {
            Some(ConfigError::EmptyGroupId)
        } else if lacks_entries(self.topics@) {
            Some(ConfigError::NoTopics)
        } else if self.webhook_url@.len() == 0 {
            Some(ConfigError::EmptyWebhookUrl)
        } else if self.dead_letter_sink@.len() == 0 {
            Some(ConfigError::EmptyDeadLetterSink)
        } else if self.retry.spec_max_attempts() == 0 {
            Some(ConfigError::ZeroMaxAttempts)
        } else if self.concurrency == Some(0usize) {
            Some(ConfigError::ZeroConcurrency)
        } else {
            None
        }
    }

    /// Checks the configuration before start.
    pub fn validate(&self) -> (r: Result<(), ConfigError>)
        ensures
            r == match self.fault() {
                Some(error) => Err::<(), ConfigError>(error),
                None => Ok::<(), ConfigError>(()),
            },
            r is Ok ==> self.retry.wf(),
    {
        if has_no_entries(&self.bootstrap) {
            return Err(ConfigError::NoBootstrapServers);
        }
        if self.group_id.as_str().is_empty() {
            return Err(ConfigError::EmptyGroupId);
        }
        if has_no_entries(&self.topics) {
            return Err(ConfigError::NoTopics);
        }
        if self.webhook_url.as_str().is_empty() {
            return Err(ConfigError::EmptyWebhookUrl);
        }
        if self.dead_letter_sink.as_str().is_empty() {
            return Err(ConfigError::EmptyDeadLetterSink);
        }
        if self.retry.max_attempts() == 0 {
            return Err(ConfigError::ZeroMaxAttempts);
        }
        match self.concurrency {
            Some(limit) => {
                if limit == 0 {
                    return Err(ConfigError::ZeroConcurrency);
                }
            },
            None => {},
        }
        Ok(())
    }

    /// The settings of the broker client: the endpoints in one string, the
    /// group, no end-of-partition events, the session timeout, and no
    /// automatic commit, since offsets are committed only after delivery.
    pub fn consumer_properties(&self) -> (properties: Vec<Property>)
        ensures
            properties@.len() == 5,
            properties@[0].name@ == "bootstrap.servers"@,
            properties@[0].value@ == comma_joined(texts(self.bootstrap@)),
            properties@[1].name@ == "group.id"@,
            properties@[1].value@ == self.group_id@,
            properties@[2].name@ == "enable.partition.eof"@,
            properties@[2].value@ == "false"@,
            properties@[3].name@ == "session.timeout.ms"@,
            properties@[3].value@ == ascii_text(decimal(self.session_timeout_ms as int)),
            properties@[4].name@ == "enable.auto.commit"@,
            properties@[4].value@ == "false"@,
    {
        let mut properties: Vec<Property> = Vec::new();
        properties.push(
            Property {
                name: String::from_str("bootstrap.servers"),
                value: join_with_commas(&self.bootstrap),
            },
        );
        properties.push(
            Property { name: String::from_str("group.id"), value: self.group_id.clone() },
        );
        properties.push(
            Property {
                name: String::from_str("enable.partition.eof"),
                value: String::from_str("false"),
            },
        );
        properties.push(
            Property {
                name: String::from_str("session.timeout.ms"),
                value: unsigned_string(self.session_timeout_ms),
            },
        );
        properties.push(
            Property {
                name: String::from_str("enable.auto.commit"),
                value: String::from_str("false"),
            },
        );
        properties
    }
}

} // verus!
