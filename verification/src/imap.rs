//! The retrieval-protocol session: a per-connection state machine over
//! tag-prefixed command lines. Selection requires authentication, fetching
//! requires a prior selection, and malformed argument counts or indexes are
//! rejected explicitly instead of being read at fixed positions.

use vstd::prelude::*;

use crate::limiter::{
    bucket_decision, bucket_next, entry_or_full, LimitDecision, RateLimiter,
};
use crate::smtp::view_of_reply;
use crate::storage::EmailStorage;
use crate::text::{
    append_bytes, append_dec, bytes_eq, copy_bytes, dec_digits, dec_value, parse_index, to_upper,
    tokenize, tokens_of, upper_seq, valid_index,
};

verus! {

use vstd::string::StringSliceAdditionalSpecFns;

/// The retrieval session states; a selected mailbox address is part of the
/// state, so a fetch without a selection is structurally impossible to serve.
pub enum ImapState {
    Unauthenticated,
    Authenticated,
    Selected(Vec<u8>),
    Closed,
}

/// The mathematical state of one retrieval session.
pub enum ImapModel {
    Unauthenticated,
    Authenticated,
    Selected(Seq<u8>),
    Closed,
}

/// The effect of one command line.
#[verifier::ext_equal]
pub struct ImapStep {
    pub next: ImapModel,
    pub reply: Option<Seq<u8>>,
}

pub open spec fn imap_ready() -> Seq<u8> {
    ("* OK IMAP ready\r\n").spec_bytes()
}

pub open spec fn imap_bye() -> Seq<u8> {
    ("* BYE\r\n").spec_bytes()
}

pub open spec fn imap_throttled(retry: u64) -> Seq<u8> {
    ("* BYE Too many requests, retry after ").spec_bytes() + dec_digits(retry as nat) + (
    "\r\n").spec_bytes()
}

/// The untagged mailbox summary and tagged status answering `SELECT`.
pub open spec fn select_reply(count: nat, tag: Seq<u8>) -> Seq<u8> {
    ("* FLAGS (\\Seen)\r\n* ").spec_bytes() + dec_digits(count) + (
    " EXISTS\r\n* OK [UIDVALIDITY 1]\r\n").spec_bytes() + tag + (
    " OK Select completed\r\n").spec_bytes()
}

/// The literal-sized body and tagged status answering a `FETCH` hit.
pub open spec fn fetch_reply(index: nat, msg: Seq<u8>, tag: Seq<u8>) -> Seq<u8> {
    ("* ").spec_bytes() + dec_digits(index) + (" FETCH (BODY[] {").spec_bytes() + dec_digits(
        msg.len(),
    ) + ("})\r\n").spec_bytes() + msg + ("\r\n").spec_bytes() + tag + (
    " OK Fetch completed\r\n").spec_bytes()
}

/// The transition function of the retrieval state machine: one tag-prefixed
/// command line against the store's state at call time.
pub open spec fn imap_step(st: ImapModel, store: EmailStorage, line: Seq<u8>) -> ImapStep {
    let toks = tokens_of(line);
    if toks.len() == 0 {
        ImapStep { next: st, reply: None }
    } else if toks.len() == 1 {
        ImapStep { next: st, reply: Some(toks[0] + (" BAD Missing command\r\n").spec_bytes()) }
    } else {
        let tag = toks[0];
        let verb = upper_seq(toks[1]);
        if verb == ("LOGIN").spec_bytes() {
            if toks.len() >= 4 {
                ImapStep {
                    next: ImapModel::Authenticated,
                    reply: Some(tag + (" OK Login successful\r\n").spec_bytes()),
                }
            } else {
                ImapStep { next: st, reply: Some(tag + (" BAD Invalid arguments\r\n").spec_bytes()) }
            }
        } else if verb == ("SELECT").spec_bytes() {
            if !(st is Authenticated || st is Selected) {
                ImapStep { next: st, reply: Some(tag + (" NO Not authenticated\r\n").spec_bytes()) }
            } else if toks.len() >= 3 {
                let mbox = toks[2];
                ImapStep {
                    next: ImapModel::Selected(mbox),
                    reply: Some(select_reply(store.mailbox(mbox).len(), tag)),
                }
            } else {
                ImapStep { next: st, reply: Some(tag + (" BAD Invalid arguments\r\n").spec_bytes()) }
            }
        } else if verb == ("FETCH").spec_bytes() {
            if !(st is Selected) {
                ImapStep { next: st, reply: Some(tag + (" NO No mailbox selected\r\n").spec_bytes()) }
            } else if toks.len() >= 5 {
                if valid_index(toks[2]) {
                    let index = dec_value(toks[2]);
                    let mb = store.mailbox(toks[4]);
                    if 1 <= index <= mb.len() {
                        ImapStep { next: st, reply: Some(fetch_reply(index, mb[index - 1], tag)) }
                    } else {
                        ImapStep {
                            next: st,
                            reply: Some(tag + (" NO Message does not exist\r\n").spec_bytes()),
                        }
                    }
                } else {
                    ImapStep {
                        next: st,
                        reply: Some(tag + (" BAD Invalid arguments\r\n").spec_bytes()),
                    }
                }
            } else {
                ImapStep { next: st, reply: Some(tag + (" BAD Invalid arguments\r\n").spec_bytes()) }
            }
        } else if verb == ("LOGOUT").spec_bytes() {
            ImapStep { next: ImapModel::Closed, reply: Some(imap_bye()) }
        } else {
            ImapStep { next: st, reply: Some(tag + (" BAD Unknown command\r\n").spec_bytes()) }
        }
    }
}

/// One retrieval-protocol session.
pub struct ImapSession {
    state: ImapState,
}

impl View for ImapSession {
    type V = ImapModel;

    closed spec fn view(&self) -> ImapModel {
        match self.state {
            ImapState::Unauthenticated => ImapModel::Unauthenticated,
            ImapState::Authenticated => ImapModel::Authenticated,
            ImapState::Selected(v) => ImapModel::Selected(v@),
            ImapState::Closed => ImapModel::Closed,
        }
    }
}

/// A tagged status line.
fn tag_reply(tag: &[u8], rest: &str) -> (r: Vec<u8>)
    ensures
        r@ == tag@ + rest.spec_bytes(),
{
    let mut v = copy_bytes(tag);
    append_bytes(&mut v, rest.as_bytes());
    v
}

impl ImapSession {
    /// A session right after the ready banner: not yet authenticated.
    pub fn new() -> (s: Self)
        ensures
            s@ is Unauthenticated,
    {
        ImapSession { state: ImapState::Unauthenticated }
    }

    pub fn is_closed(&self) -> (r: bool)
        ensures
            r == (self@ is Closed),
    {
        matches!(self.state, ImapState::Closed)
    }

    /// Drives the state machine by one tag-prefixed command line, reading
    /// the shared store; the reply (if owed) is returned as bytes.
    pub fn process_line(&mut self, store: &EmailStorage, line: &[u8]) -> (reply: Option<Vec<u8>>)
        requires
            !(old(self)@ is Closed),
        ensures
            ({
                let step = imap_step(old(self)@, *store, line@);
                &&& final(self)@ == step.next
                &&& view_of_reply(reply) == step.reply
            }),
    {
        let toks = tokenize(line);
        let ghost stoks = tokens_of(line@);
        if toks.len() == 0 {
            return None;
        }
        proof {
            assert(toks.deep_view()[0] =~= toks@[0]@);
        }
        let tag = toks[0].as_slice();
        if toks.len() == 1 {
            return Some(tag_reply(tag, " BAD Missing command\r\n"));
        }
        proof {
            assert(toks.deep_view()[1] =~= toks@[1]@);
        }
        let verb = to_upper(toks[1].as_slice());
        proof {
            assert(verb@ == upper_seq(stoks[1]));
        }
        if bytes_eq(verb.as_slice(), ("LOGIN").as_bytes()) {
            if toks.len() >= 4 {
                self.state = ImapState::Authenticated;
                Some(tag_reply(tag, " OK Login successful\r\n"))
            } else {
                Some(tag_reply(tag, " BAD Invalid arguments\r\n"))
            }
        } else if bytes_eq(verb.as_slice(), ("SELECT").as_bytes()) {
            let authed = !matches!(self.state, ImapState::Unauthenticated);
            if !authed {
                Some(tag_reply(tag, " NO Not authenticated\r\n"))
            } else if toks.len() >= 3 {
                proof {
                    assert(toks.deep_view()[2] =~= toks@[2]@);
                }
                let mbox = toks[2].as_slice();
                let count = store.count_messages(mbox);
                let mut v = copy_bytes(("* FLAGS (\\Seen)\r\n* ").as_bytes());
                append_dec(&mut v, count as u64);
                append_bytes(&mut v, (" EXISTS\r\n* OK [UIDVALIDITY 1]\r\n").as_bytes());
                append_bytes(&mut v, tag);
                append_bytes(&mut v, (" OK Select completed\r\n").as_bytes());
                self.state = ImapState::Selected(copy_bytes(mbox));
                proof {
                    assert(v@ =~= select_reply(store.mailbox(stoks[2]).len(), stoks[0]));
                }
                Some(v)
            } else {
                Some(tag_reply(tag, " BAD Invalid arguments\r\n"))
            }
        } else if bytes_eq(verb.as_slice(), ("FETCH").as_bytes()) {
            let selected = matches!(self.state, ImapState::Selected(_));
            if !selected {
                Some(tag_reply(tag, " NO No mailbox selected\r\n"))
            } else if toks.len() >= 5 {
                proof {
                    assert(toks.deep_view()[2] =~= toks@[2]@);
                    assert(toks.deep_view()[4] =~= toks@[4]@);
                }
                match parse_index(toks[2].as_slice()) {
                    Some(index) => {
                        match store.fetch_message(toks[4].as_slice(), index) {
                            Some(msg) => {
                                let mut v = copy_bytes(("* ").as_bytes());
                                append_dec(&mut v, index as u64);
                                append_bytes(&mut v, (" FETCH (BODY[] {").as_bytes());
                                append_dec(&mut v, msg.len() as u64);
                                append_bytes(&mut v, ("})\r\n").as_bytes());
                                append_bytes(&mut v, msg.as_slice());
                                append_bytes(&mut v, ("\r\n").as_bytes());
                                append_bytes(&mut v, tag);
                                append_bytes(&mut v, (" OK Fetch completed\r\n").as_bytes());
                                proof {
                                    assert(v@ =~= fetch_reply(
                                        dec_value(stoks[2]),
                                        store.mailbox(stoks[4])[dec_value(stoks[2]) - 1],
                                        stoks[0],
                                    ));
                                }
                                Some(v)
                            },
                            None => Some(tag_reply(tag, " NO Message does not exist\r\n")),
                        }
                    },
                    None => Some(tag_reply(tag, " BAD Invalid arguments\r\n")),
                }
            } else {
                Some(tag_reply(tag, " BAD Invalid arguments\r\n"))
            }
        } else if bytes_eq(verb.as_slice(), ("LOGOUT").as_bytes()) {
            self.state = ImapState::Closed;
            Some(copy_bytes(("* BYE\r\n").as_bytes()))
        } else {
            Some(tag_reply(tag, " BAD Unknown command\r\n"))
        }
    }
}

/// The connect-time gate of the retrieval protocol: one admission check for
/// the peer address; on Allow the ready banner and an open session, on Deny
/// a parting reply naming the wait, and no session.
pub fn on_connect(limiter: &mut RateLimiter, peer: &str, now: u64) -> (r: (Vec<u8>, bool))
    requires
        old(limiter).wf(),
    ensures
        final(limiter).wf(),
        final(limiter).spec_config() == old(limiter).spec_config(),
        ({
            let k = vstd::utf8::encode_utf8(peer@);
            let burst = old(limiter).spec_config().retrieval_burst;
            let period = old(limiter).spec_config().retrieval_period;
            let b0 = entry_or_full(old(limiter).retrieval_bucket(k), now, burst);
            &&& final(limiter).retrieval_bucket(k) == Some(bucket_next(b0, now, burst, period))
            &&& forall|k2: Seq<u8>| k2 != k ==> #[trigger] final(limiter).retrieval_bucket(k2)
                == old(limiter).retrieval_bucket(k2)
            &&& forall|k2: Seq<u8>| #[trigger] final(limiter).submission_bucket(k2) == old(
                limiter,
            ).submission_bucket(k2)
            &&& match bucket_decision(b0, now, burst, period) {
                LimitDecision::Allow => r.1 == true && r.0@ == imap_ready(),
                LimitDecision::Deny { retry_after } => r.1 == false && r.0@ == imap_throttled(
                    retry_after,
                ),
            }
        }),
{
    let d = limiter.check_imap_limit(peer, now);
    match d {
        LimitDecision::Allow => (copy_bytes(("* OK IMAP ready\r\n").as_bytes()), true),
        LimitDecision::Deny { retry_after } => {
            let mut v = copy_bytes(("* BYE Too many requests, retry after ").as_bytes());
            append_dec(&mut v, retry_after);
            append_bytes(&mut v, ("\r\n").as_bytes());
            (v, false)
        },
    }
}

} // verus!
