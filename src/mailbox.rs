//! The decisions of the mailbox synchronization engine: the cursor over the
//! mailbox, what a fetch delivers, and how waits and their failures are
//! answered. The session itself (TLS, IMAP commands, timed waits) is driven
//! by the caller, which hands the results in here.
use vstd::prelude::*;

use crate::emergency::text_view;
use crate::message::{Message, MessageView};
use crate::multipart::{get_message_body, message_body};
use crate::text::{push_decimal, decimal_digits, string_of};

verus! {

/// How often a wait may fail to start, in a row, before the whole session
/// is rebuilt.
pub const MAX_RECONNECTION_ATTEMPTS: u8 = 3;

/// Why a wait for new mail ended without a result.
#[derive(Debug, Clone, Copy, PartialEq, Eq, Structural)]
pub enum IMAPIdleError {
    /// The wait could not be started.
    InitialisationError,
    /// An established wait lost its connection.
    ConnectionError,
}

/// An unsolicited server response received while waiting.
#[derive(Debug, Clone, Copy, PartialEq, Eq, Structural)]
pub enum IdleEvent {
    /// The mailbox now holds this many messages.
    Exists(u32),
    /// This many messages are recent.
    Recent(u32),
    Other,
}

/// What to do after a wait has ended.
#[derive(Debug, Clone, Copy, PartialEq, Eq, Structural)]
pub enum IdleDecision {
    /// Fetch what arrived since the cursor.
    Fetch,
    /// Wait again on the same session.
    WaitAgain,
    /// Give up on the session: log out and connect anew.
    Reconnect,
}

/// The messages of a fetch that are delivered: those with a text part that
/// lie at or above `min_id`, in the order fetched.
pub open spec fn delivered(msgs: Seq<MessageView>, min_id: u32) -> Seq<MessageView>
    decreases msgs.len(),
{
    if msgs.len() == 0 {
        seq![]
    } else {
        let m = msgs.last();
        let rest = delivered(msgs.drop_last(), min_id);
        if m.text is Some && m.seq >= min_id {
            rest.push(m)
        } else {
            rest
        }
    }
}

/// The cursor `c` after it has seen the messages `msgs`.
pub open spec fn advanced(c: u32, msgs: Seq<MessageView>) -> u32
    decreases msgs.len(),
{
    if msgs.len() == 0 {
        c
    } else {
        let prev = advanced(c, msgs.drop_last());
        if msgs.last().seq > prev {
            msgs.last().seq
        } else {
            prev
        }
    }
}

pub open spec fn bodies(msgs: Seq<MessageView>) -> Seq<Option<Seq<char>>> {
    msgs.map_values(|m: MessageView| message_body(m))
}

/// The synchronization engine's own state: the mailbox cursor, the highest
/// message number already delivered. It only ever moves up.
pub struct IMAPConnection {
    exists: u32,
}

impl View for IMAPConnection {
    type V = u32;

    closed spec fn view(&self) -> u32 {
        self.exists
    }
}

impl IMAPConnection {
    /// The engine for a freshly selected mailbox that holds `exists`
    /// messages: those already there are not delivered.
    pub fn new(exists: u32) -> (r: IMAPConnection)
        ensures
            r@ == exists,
    {
        IMAPConnection { exists }
    }

    pub fn most_current_id(&self) -> (r: u32)
        ensures
            r == self@,
    {
        self.exists
    }

    /// The first message number not yet delivered; `None` once the cursor
    /// stands at the largest number there can be.
    pub fn next_unseen_id(&self) -> (r: Option<u32>)
        ensures
            self@ < u32::MAX ==> r == Some((self@ + 1) as u32),
            self@ == u32::MAX ==> r is None,
    {
        if self.exists < u32::MAX {
            Some(self.exists + 1)
        } else {
            None
        }
    }

    /// Whether the newest messages, as a cheap fetch reported them, show one
    /// beyond the cursor.
    pub fn has_new_mail(&self, newest: &Vec<Message>) -> (r: bool)
        ensures
            r == exists|k: int|
                0 <= k < newest@.len() && (#[trigger] newest@[k]).header is Some
                    && newest@[k].seq > self@,
    {
        let mut k: usize = 0;
        while k < newest.len()
            invariant
                k <= newest.len(),
                forall|j: int|
                    0 <= j < k ==> !((#[trigger] newest@[j]).header is Some && newest@[j].seq
                        > self@),
            decreases newest.len() - k,
        {
            if newest[k].header.is_some() && newest[k].seq > self.exists {
                return true;
            }
            k += 1;
        }
        false
    }

    /// Where to fetch from after a cheap fetch reported the newest messages:
    /// just above the cursor when one of them lies beyond it, else nowhere.
    pub fn newest_min_id(&self, newest: &Vec<Message>) -> (r: Option<u32>)
        ensures
            r == (if (exists|k: int|
                0 <= k < newest@.len() && (#[trigger] newest@[k]).header is Some
                    && newest@[k].seq > self@) && self@ < u32::MAX {
                Some((self@ + 1) as u32)
            } else {
                None::<u32>
            }),
    {
        if self.has_new_mail(newest) {
            self.next_unseen_id()
        } else {
            None
        }
    }

    /// Takes in the messages that a fetch of `min_id:*` returned: the cursor
    /// advances over every one of them, and the body of each one with a text
    /// part at or above `min_id` is delivered, in order (`None` where it has
    /// no usable plain text).
    pub fn load_since(&mut self, min_id: u32, fetched: Vec<Message>) -> (r: Vec<Option<String>>)
        ensures
            final(self)@ == advanced(old(self)@, fetched@.map_values(|m: Message| m@)),
            r@.map_values(|o: Option<String>| text_view(o)) == bodies(
                delivered(fetched@.map_values(|m: Message| m@), min_id),
            ),
    {
        let ghost all = fetched@.map_values(|m: Message| m@);
        let ghost c0 = self@;
        let mut out: Vec<Option<String>> = Vec::new();
        for m in it: fetched
            invariant
                all == it.seq().map_values(|m: Message| m@),
                self@ == advanced(c0, all.take(it.index() as int)),
                out@.map_values(|o: Option<String>| text_view(o)) == bodies(
                    delivered(all.take(it.index() as int), min_id),
                ),
        {
            let ghost mv = m@;
            let ghost k = it.index() as int;
            let ghost before = delivered(all.take(k), min_id);
            assert(all[k] == mv);
            assert(all.take(k + 1).drop_last() =~= all.take(k));
            assert(all.take(k + 1).last() == mv);
            assert(before.push(mv).drop_last() =~= before);
            if m.seq > self.exists {
                self.exists = m.seq;
            }
            if m.text.is_some() && m.seq >= min_id {
                let ghost old_out = out@;
                let body = get_message_body(m);
                out.push(body);
                assert(out@.map_values(|o: Option<String>| text_view(o)) =~= old_out.map_values(
                    |o: Option<String>| text_view(o),
                ).push(message_body(mv)));
                assert(bodies(before.push(mv)) =~= bodies(before).push(message_body(mv)));
            }
        }
        assert(all.take(all.len() as int) =~= all);
        out
    }

    /// The set of a fetch of everything from `min_id` to the end of the
    /// mailbox, `min_id:*`. Its upper end is open, so that mail arriving
    /// while the fetch runs is still included.
    pub fn since_set(min_id: u32) -> (r: String)
        ensures
            r@ == decimal_digits(min_id as nat) + ":*"@,
    {
        let mut out: Vec<char> = Vec::new();
        push_decimal(&mut out, min_id as u64);
        crate::text::push_str(&mut out, ":*");
        string_of(out.as_slice())
    }
}

/// The largest message count reported during a wait, and whether to keep
/// waiting, after the response `event`: a higher count ends the wait,
/// anything else does not.
pub fn idle_event(new_max: u32, event: IdleEvent) -> (r: (u32, bool))
    ensures
        match event {
            IdleEvent::Exists(n) => r == (if n > new_max {
                n
            } else {
                new_max
            }, false),
            _ => r == (new_max, true),
        },
{
    match event {
        IdleEvent::Exists(n) => (if n > new_max {
            n
        } else {
            new_max
        }, false),
        IdleEvent::Recent(_) => (new_max, true),
        IdleEvent::Other => (new_max, true),
    }
}

/// Whether polling stops after a check for new mail: on a failure, or once
/// something was delivered.
pub fn poll_finished(result: &Result<Vec<Option<String>>, ()>) -> (r: bool)
    ensures
        r == match result {
            Ok(v) => v@.len() > 0,
            Err(_) => true,
        },
{
    match result {
        Ok(v) => v.len() > 0,
        Err(_) => true,
    }
}

/// The retry policy around waits for new mail: a wait that cannot be started
/// is retried at once, up to a bound, after which the session is rebuilt; a
/// wait that lost its connection is retried without bound and clears the
/// count.
pub struct IdleRetries {
    init_errors: u8,
}

impl View for IdleRetries {
    type V = u8;

    closed spec fn view(&self) -> u8 {
        self.init_errors
    }
}

impl IdleRetries {
    pub fn new() -> (r: IdleRetries)
        ensures
            r@ == 0,
    {
        IdleRetries { init_errors: 0 }
    }

    /// The decision after a wait ended with `outcome`.
    pub fn after_wait(&mut self, outcome: &Result<u32, IMAPIdleError>) -> (d: IdleDecision)
        ensures
            match outcome {
                Ok(_) => d == IdleDecision::Fetch && final(self)@ == old(self)@,
                Err(IMAPIdleError::InitialisationError) => {
                    &&& final(self)@ == (if old(self)@ < u8::MAX {
                        old(self)@ + 1
                    } else {
                        old(self)@ as int
                    })
                    &&& d == (if final(self)@ > MAX_RECONNECTION_ATTEMPTS {
                        IdleDecision::Reconnect
                    } else {
                        IdleDecision::WaitAgain
                    })
                },
                Err(IMAPIdleError::ConnectionError) => {
                    &&& d == IdleDecision::WaitAgain
                    &&& final(self)@ == 0
                },
            },
    {
        match outcome {
            Ok(_) => IdleDecision::Fetch,
            Err(IMAPIdleError::InitialisationError) => {
                if self.init_errors < u8::MAX {
                    self.init_errors = self.init_errors + 1;
                }
                if self.init_errors > MAX_RECONNECTION_ATTEMPTS {
                    IdleDecision::Reconnect
                } else {
                    IdleDecision::WaitAgain
                }
            },
            Err(IMAPIdleError::ConnectionError) => {
                self.init_errors = 0;
                IdleDecision::WaitAgain
            },
        }
    }
}

proof fn lemma_delivered_at_least(msgs: Seq<MessageView>, min_id: u32)
    ensures
        forall|k: int|
            0 <= k < delivered(msgs, min_id).len() ==> #[trigger] delivered(msgs, min_id)[k].seq
                >= min_id,
    decreases msgs.len(),
{
    if msgs.len() > 0 {
        lemma_delivered_at_least(msgs.drop_last(), min_id);
    }
}

proof fn lemma_advanced_bounds(c: u32, msgs: Seq<MessageView>)
    ensures
        advanced(c, msgs) >= c,
        forall|k: int| 0 <= k < msgs.len() ==> advanced(c, msgs) >= #[trigger] msgs[k].seq,
    decreases msgs.len(),
{
    if msgs.len() > 0 {
        let init = msgs.drop_last();
        lemma_advanced_bounds(c, init);
        assert forall|k: int| 0 <= k < msgs.len() implies advanced(c, msgs) >= #[trigger] msgs[k].seq by {
            if k < msgs.len() - 1 {
                assert(msgs[k] == init[k]);
            }
        }
    }
}

proof fn lemma_delivered_below_cursor(c: u32, msgs: Seq<MessageView>, min_id: u32)
    ensures
        forall|k: int|
            0 <= k < delivered(msgs, min_id).len() ==> #[trigger] delivered(msgs, min_id)[k].seq
                <= advanced(c, msgs),
    decreases msgs.len(),
{
    if msgs.len() > 0 {
        let init = msgs.drop_last();
        lemma_delivered_below_cursor(c, init, min_id);
        lemma_advanced_bounds(c, msgs);
        lemma_advanced_bounds(c, init);
        assert(msgs[msgs.len() - 1] == msgs.last());
    }
}

/// Two fetches in a row, each from just above the cursor, never deliver the
/// same message number twice; everything they deliver lies above the cursor
/// as it stood before, and the cursor never moves down.
pub proof fn lemma_fetches_never_repeat(c0: u32, first: Seq<MessageView>, second: Seq<MessageView>)
    requires
        c0 < u32::MAX,
    ensures
        ({
            let d1 = delivered(first, (c0 + 1) as u32);
            let c1 = advanced(c0, first);
            &&& c0 <= c1
            &&& forall|i: int| 0 <= i < d1.len() ==> c0 < #[trigger] d1[i].seq <= c1
            &&& c1 < u32::MAX ==> {
                let d2 = delivered(second, (c1 + 1) as u32);
                let c2 = advanced(c1, second);
                &&& c1 <= c2
                &&& forall|j: int| 0 <= j < d2.len() ==> c1 < #[trigger] d2[j].seq <= c2
                &&& forall|i: int, j: int|
                    0 <= i < d1.len() && 0 <= j < d2.len() ==> #[trigger] d1[i].seq
                        != #[trigger] d2[j].seq
            }
        }),
{
    let c1 = advanced(c0, first);
    lemma_delivered_at_least(first, (c0 + 1) as u32);
    lemma_advanced_bounds(c0, first);
    lemma_delivered_below_cursor(c0, first, (c0 + 1) as u32);
    if c1 < u32::MAX {
        lemma_delivered_at_least(second, (c1 + 1) as u32);
        lemma_advanced_bounds(c1, second);
        lemma_delivered_below_cursor(c1, second, (c1 + 1) as u32);
    }
}

} // verus!
