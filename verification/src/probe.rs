//! The outcome of a single probe.

use vstd::prelude::*;

use crate::duration::Duration;

verus! {

/// Why a probe failed.
#[derive(Clone, Debug)]
pub enum ProbeError {
    /// The host is no domain name.
    BadName(String),
    /// The query could not be put on the wire.
    Encode(String),
    /// The reply could not be read.
    Decode(String),
    /// The socket failed.
    Io(String),
    /// No reply came in time.
    Timeout(Duration),
    /// The reply belongs to another query.
    IdMismatch { sent: u16, got: u16 },
}

/// What a reply said, and how long it took.
#[derive(Clone, Debug)]
pub struct ProbeOutcome {
    pub rtt: Duration,
    /// The response code.
    pub rcode: u16,
    pub answer_count: usize,
    pub first_answer: Option<String>,
}

/// The transaction id that a counter gives: its value, but never zero, which some resolvers treat
/// oddly.
pub open spec fn id_at(counter: u16) -> u16 {
    if counter == 0 {
        1
    } else {
        counter
    }
}

/// The counter after it gave an id.
pub open spec fn counter_after(counter: u16) -> u16 {
    if id_at(counter) == u16::MAX {
        0
    } else {
        (id_at(counter) + 1) as u16
    }
}

/// The next transaction id.
pub fn next_id(counter: &mut u16) -> (r: u16)
    ensures
        r == id_at(*old(counter)),
        *final(counter) == counter_after(*old(counter)),
        r != 0,
{
    let id: u16 = if *counter == 0 {
        1
    } else {
        *counter
    };
    *counter = if id == u16::MAX {
        0
    } else {
        id + 1
    };
    id
}

/// The counter after `n` ids.
pub open spec fn counter_after_many(counter: u16, n: nat) -> u16
    decreases n,
{
    if n == 0 {
        counter
    } else {
        counter_after(counter_after_many(counter, (n - 1) as nat))
    }
}

proof fn lemma_counter(counter: u16, n: nat)
    requires
        counter != 0,
        n <= 65535,
    ensures
        id_at(counter_after_many(counter, n)) == (if counter + n <= 65535 {
            counter + n
        } else {
            counter + n - 65535
        }),
    decreases n,
{
    if n > 0 {
        lemma_counter(counter, (n - 1) as nat);
    }
}

/// An id is never zero, and it comes back after 65535 others and no sooner.
pub proof fn law_ids_repeat_late(counter: u16, n: nat)
    requires
        0 < n <= 65535,
    ensures
        id_at(counter) != 0,
        id_at(counter) == id_at(counter_after_many(counter, n)) <==> n == 65535,
{
    if counter != 0 {
        lemma_counter(counter, n);
    } else {
        lemma_counter_from_zero(n);
        lemma_counter(1, n);
    }
}

proof fn lemma_counter_from_zero(n: nat)
    ensures
        id_at(counter_after_many(0, n)) == id_at(counter_after_many(1, n)),
        n > 0 ==> counter_after_many(0, n) == counter_after_many(1, n),
    decreases n,
{
    if n > 0 {
        lemma_counter_from_zero((n - 1) as nat);
    }
}

/// The local address that a socket is bound to before it talks to a resolver.
pub fn bind_addr(v4: bool) -> (r: &'static str)
    ensures
        r@ == (if v4 { "0.0.0.0:0"@ } else { "[::]:0"@ }),
{
    if v4 {
        "0.0.0.0:0"
    } else {
        "[::]:0"
    }
}

/// Ids count up from 1 to 65535 and start again.
pub proof fn law_ids_count_up(counter: u16)
    ensures
        counter > 0 ==> id_at(counter) == counter,
        id_at(0) == 1,
        id_at(counter) < 65535 ==> id_at(counter_after(counter)) == id_at(counter) + 1,
        id_at(counter) == 65535 ==> id_at(counter_after(counter)) == 1,
{
}

} // verus!
