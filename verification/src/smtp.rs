//! The submission-protocol session: a per-connection state machine that
//! tokenizes command lines, assembles the envelope (sender, pending
//! recipients) and the message body, and on the terminator line signs the
//! body (best effort) and appends it to every pending recipient's mailbox.

use vstd::prelude::*;

use crate::limiter::{
    bucket_decision, bucket_next, entry_or_full, LimitDecision, RateLimiter,
};
use crate::signer::{is_signed_form, DkimConfig};
use crate::storage::EmailStorage;
use crate::text::{
    after_colon, append_bytes, append_dec, bytes_eq, colon_split, copy_bytes, dec_digits,
    extract_addr, mail_addr, to_upper, tokenize, tokens_of, upper_seq,
};

verus! {

use vstd::string::StringSliceAdditionalSpecFns;

/// The submission session states; `Greeting` is the banner emitted at
/// connect time, after which the session is idle.
#[derive(Clone, Copy, PartialEq, Eq, Structural, Debug)]
pub enum SmtpState {
    Idle,
    HasSender,
    HasRecipients,
    ReadingBody,
    Closed,
}

/// The mathematical state of one submission session.
#[verifier::ext_equal]
pub struct SmtpModel {
    pub state: SmtpState,
    pub sender: Option<Seq<u8>>,
    pub recipients: Seq<Seq<u8>>,
    pub body: Seq<u8>,
}

/// The effect of one command line: the next session state, the reply owed to
/// the peer (none for body content), and the message delivered to every
/// pending recipient (only on the terminator line).
#[verifier::ext_equal]
pub struct SmtpStep {
    pub next: SmtpModel,
    pub reply: Option<Seq<u8>>,
    pub delivered: Option<Seq<u8>>,
}

pub open spec fn smtp_ready() -> Seq<u8> {
    ("220 temp-mail SMTP ready\r\n").spec_bytes()
}

pub open spec fn smtp_hello() -> Seq<u8> {
    ("250 Hello\r\n").spec_bytes()
}

pub open spec fn smtp_ok() -> Seq<u8> {
    ("250 OK\r\n").spec_bytes()
}

pub open spec fn smtp_accepted() -> Seq<u8> {
    ("250 OK message accepted\r\n").spec_bytes()
}

pub open spec fn smtp_start_input() -> Seq<u8> {
    ("354 End data with a single dot line\r\n").spec_bytes()
}

pub open spec fn smtp_bye() -> Seq<u8> {
    ("221 Bye\r\n").spec_bytes()
}

pub open spec fn smtp_unknown() -> Seq<u8> {
    ("500 Unknown command\r\n").spec_bytes()
}

pub open spec fn smtp_bad_syntax() -> Seq<u8> {
    ("500 Missing address\r\n").spec_bytes()
}

pub open spec fn smtp_no_recipients() -> Seq<u8> {
    ("554 No valid recipients\r\n").spec_bytes()
}

pub open spec fn smtp_throttled(retry: u64) -> Seq<u8> {
    ("421 Too many requests, retry after ").spec_bytes() + dec_digits(retry as nat) + (
    "\r\n").spec_bytes()
}

/// The envelope after a full reset: the safer default is to clear sender,
/// recipients and body after every accepted message.
pub open spec fn reset_model() -> SmtpModel {
    SmtpModel {
        state: SmtpState::Idle,
        sender: None,
        recipients: Seq::empty(),
        body: Seq::empty(),
    }
}

/// The transition function of the submission state machine: one incoming
/// line, together with the signing outcome for the assembled body (`Some`
/// exactly when the signer succeeded; the outcome is consulted only on the
/// terminator line), yields the step's full effect.
pub open spec fn smtp_step(m: SmtpModel, line: Seq<u8>, signed: Option<Seq<u8>>) -> SmtpStep {
    if m.state is ReadingBody {
        if line == seq![46u8] {
            let msg = match signed {
                Some(s) => s,
                None => m.body,
            };
            SmtpStep { next: reset_model(), reply: Some(smtp_accepted()), delivered: Some(msg) }
        } else {
            SmtpStep {
                next: SmtpModel {
                    state: m.state,
                    sender: m.sender,
                    recipients: m.recipients,
                    body: m.body + line + seq![10u8],
                },
                reply: None,
                delivered: None,
            }
        }
    } else {
        let toks = tokens_of(line);
        if toks.len() == 0 {
            SmtpStep { next: m, reply: None, delivered: None }
        } else {
            let verb = upper_seq(toks[0]);
            if verb == ("HELO").spec_bytes() || verb == ("EHLO").spec_bytes() {
                SmtpStep { next: m, reply: Some(smtp_hello()), delivered: None }
            } else if verb == ("MAIL").spec_bytes() {
                match colon_split(line) {
                    Some(rest) => SmtpStep {
                        next: SmtpModel {
                            state: if m.state is Idle {
                                SmtpState::HasSender
                            } else {
                                m.state
                            },
                            sender: Some(mail_addr(rest)),
                            recipients: m.recipients,
                            body: m.body,
                        },
                        reply: Some(smtp_ok()),
                        delivered: None,
                    },
                    None => SmtpStep { next: m, reply: Some(smtp_bad_syntax()), delivered: None },
                }
            } else if verb == ("RCPT").spec_bytes() {
                match colon_split(line) {
                    Some(rest) => {
                        let addr = mail_addr(rest);
                        SmtpStep {
                            next: SmtpModel {
                                state: SmtpState::HasRecipients,
                                sender: m.sender,
                                recipients: if m.recipients.contains(addr) {
                                    m.recipients
                                } else {
                                    m.recipients.push(addr)
                                },
                                body: m.body,
                            },
                            reply: Some(smtp_ok()),
                            delivered: None,
                        }
                    },
                    None => SmtpStep { next: m, reply: Some(smtp_bad_syntax()), delivered: None },
                }
            } else if verb == ("DATA").spec_bytes() {
                if m.recipients.len() > 0 {
                    SmtpStep {
                        next: SmtpModel {
                            state: SmtpState::ReadingBody,
                            sender: m.sender,
                            recipients: m.recipients,
                            body: m.body,
                        },
                        reply: Some(smtp_start_input()),
                        delivered: None,
                    }
                } else {
                    SmtpStep { next: m, reply: Some(smtp_no_recipients()), delivered: None }
                }
            } else if verb == ("QUIT").spec_bytes() {
                SmtpStep {
                    next: SmtpModel {
                        state: SmtpState::Closed,
                        sender: m.sender,
                        recipients: m.recipients,
                        body: m.body,
                    },
                    reply: Some(smtp_bye()),
                    delivered: None,
                }
            } else {
                SmtpStep { next: m, reply: Some(smtp_unknown()), delivered: None }
            }
        }
    }
}

/// Pairwise-distinct byte strings: the pending recipients form a set.
pub open spec fn distinct_seq(s: Seq<Seq<u8>>) -> bool {
    forall|i: int, j: int| 0 <= i < j < s.len() ==> s[i] != s[j]
}

/// The store after one message went out to a set of recipients: appended at
/// the end of each recipient's mailbox; every other mailbox untouched.
pub open spec fn delivered_to(
    s0: EmailStorage,
    s1: EmailStorage,
    recips: Seq<Seq<u8>>,
    msg: Seq<u8>,
) -> bool {
    &&& forall|i: int| 0 <= i < recips.len() ==> #[trigger] s1.mailbox(recips[i]) == s0.mailbox(
        recips[i],
    ).push(msg)
    &&& forall|a: Seq<u8>| !recips.contains(a) ==> #[trigger] s1.mailbox(a) == s0.mailbox(a)
}

pub open spec fn view_of_reply(r: Option<Vec<u8>>) -> Option<Seq<u8>> {
    match r {
        Some(v) => Some(v@),
        None => None,
    }
}

/// What one call of `process_line` guarantees, given the signing outcome.
pub open spec fn process_line_post(
    m0: SmtpModel,
    s0: EmailStorage,
    m1: SmtpModel,
    s1: EmailStorage,
    line: Seq<u8>,
    signed: Option<Seq<u8>>,
    reply: Option<Seq<u8>>,
) -> bool {
    let step = smtp_step(m0, line, signed);
    &&& m1 == step.next
    &&& reply == step.reply
    &&& match step.delivered {
        Some(msg) => delivered_to(s0, s1, m0.recipients, msg),
        None => s1 == s0,
    }
}

/// Stores one accepted message for every pending recipient: the signed copy
/// when one was produced, the raw body otherwise. A signing failure never
/// loses the message.
pub fn deliver_message(
    store: &mut EmailStorage,
    recipients: &Vec<Vec<u8>>,
    body: &[u8],
    signed: Option<Vec<u8>>,
)
    requires
        distinct_seq(recipients.deep_view()),
    ensures
        delivered_to(
            *old(store),
            *final(store),
            recipients.deep_view(),
            match signed {
                Some(v) => v@,
                None => body@,
            },
        ),
{
    let msg: Vec<u8> = match signed {
        Some(v) => v,
        None => copy_bytes(body),
    };
    deliver_all(store, recipients, msg.as_slice());
}

/// Appends `msg` to the mailbox of every recipient; no other mailbox moves.
fn deliver_all(store: &mut EmailStorage, recipients: &Vec<Vec<u8>>, msg: &[u8])
    requires
        distinct_seq(recipients.deep_view()),
    ensures
        delivered_to(*old(store), *final(store), recipients.deep_view(), msg@),
{
    let ghost dv = recipients.deep_view();
    let n = recipients.len();
    let mut i: usize = 0;
    proof {
        assert(dv.len() == recipients@.len());
    }
    #[verifier::loop_isolation(false)]
    while i < n
        invariant
            0 <= i <= n,
            forall|k: int| 0 <= k < i ==> #[trigger] store.mailbox(dv[k]) == old(store).mailbox(
                dv[k],
            ).push(msg@),
            forall|a: Seq<u8>| !dv.take(i as int).contains(a) ==> #[trigger] store.mailbox(a)
                == old(store).mailbox(a),
        decreases n - i,
    {
        proof {
            assert(dv[i as int] =~= recipients@[i as int]@);
        }
        let m = copy_bytes(msg);
        let ghost pre = *store;
        store.add_message(recipients[i].as_slice(), m);
        proof {
            assert(dv.take(i as int).contains(dv[i as int]) == false) by {
                if dv.take(i as int).contains(dv[i as int]) {
                    let k = choose|k: int|
                        0 <= k < i && dv.take(i as int)[k] == dv[i as int];
                    assert(dv[k] == dv[i as int]);
                }
            }
            assert(store.mailbox(dv[i as int]) == old(store).mailbox(dv[i as int]).push(msg@));
            assert forall|k: int| 0 <= k < i + 1 implies #[trigger] store.mailbox(dv[k]) == old(
                store,
            ).mailbox(dv[k]).push(msg@) by {
                if k < i {
                    assert(dv[k] != dv[i as int]);
                    assert(store.mailbox(dv[k]) == pre.mailbox(dv[k]));
                }
            }
            assert forall|a: Seq<u8>| !dv.take(i + 1 as int).contains(a) implies #[trigger] store.mailbox(
                a,
            ) == old(store).mailbox(a) by {
                assert(dv.take(i + 1 as int)[i as int] == dv[i as int]);
                assert(a != dv[i as int]);
                assert(!dv.take(i as int).contains(a)) by {
                    if dv.take(i as int).contains(a) {
                        let k = choose|k: int| 0 <= k < i && dv.take(i as int)[k] == a;
                        assert(dv.take(i + 1 as int)[k] == a);
                    }
                }
            }
        }
        i += 1;
    }
    proof {
        assert forall|a: Seq<u8>| !dv.contains(a) implies #[trigger] store.mailbox(a) == old(
            store,
        ).mailbox(a) by {
            assert(!dv.take(n as int).contains(a)) by {
                if dv.take(n as int).contains(a) {
                    let k = choose|k: int| 0 <= k < n && dv.take(n as int)[k] == a;
                    assert(dv[k] == a);
                }
            }
        }
    }
}

/// One submission-protocol session.
pub struct SmtpSession {
    state: SmtpState,
    sender: Option<Vec<u8>>,
    recipients: Vec<Vec<u8>>,
    body: Vec<u8>,
}

impl View for SmtpSession {
    type V = SmtpModel;

    closed spec fn view(&self) -> SmtpModel {
        SmtpModel {
            state: self.state,
            sender: match self.sender {
                Some(v) => Some(v@),
                None => None,
            },
            recipients: self.recipients.deep_view(),
            body: self.body@,
        }
    }
}

impl SmtpSession {
    /// The pending recipients form a set: no address twice.
    pub open spec fn wf(&self) -> bool {
        distinct_seq(self@.recipients)
    }

    /// A session right after the greeting banner: idle, empty envelope.
    pub fn new() -> (s: Self)
        ensures
            s@ == reset_model(),
            s.wf(),
    {
        let s = SmtpSession {
            state: SmtpState::Idle,
            sender: None,
            recipients: Vec::new(),
            body: Vec::new(),
        };
        proof {
            assert(s@ =~~= reset_model());
        }
        s
    }

    pub fn is_closed(&self) -> (r: bool)
        ensures
            r == (self@.state is Closed),
    {
        matches!(self.state, SmtpState::Closed)
    }

    /// Drives the state machine by one line. The reply (if owed) is returned
    /// as bytes for the caller to write; on the terminator line the body is
    /// signed when a signer is configured — on signing failure or without a
    /// signer, the unsigned body is delivered, never lost.
    pub fn process_line(
        &mut self,
        store: &mut EmailStorage,
        signer: Option<&DkimConfig>,
        line: &[u8],
    ) -> (reply: Option<Vec<u8>>)
        requires
            old(self).wf(),
            !(old(self)@.state is Closed),
        ensures
            final(self).wf(),
            exists|signed: Option<Seq<u8>>|
                {
                    &&& #[trigger] process_line_post(
                        old(self)@,
                        *old(store),
                        final(self)@,
                        *final(store),
                        line@,
                        signed,
                        view_of_reply(reply),
                    )
                    &&& (signer is None ==> signed is None)
                    &&& match (signer, signed) {
                        (Some(c), Some(sm)) => is_signed_form(
                            sm,
                            c.spec_domain(),
                            c.spec_selector(),
                            old(self)@.body,
                        ),
                        _ => true,
                    }
                },
    {
        match self.state {
            SmtpState::ReadingBody => {
                if line.len() == 1 && line[0] == 46 {
                    proof {
                        assert(line@ =~= seq![46u8]);
                    }
                    let outcome: Option<Vec<u8>> = match signer {
                        Some(c) => match c.sign_email(self.body.as_slice()) {
                            Ok(m) => Some(m),
                            Err(_) => None,
                        },
                        None => None,
                    };
                    let ghost signed: Option<Seq<u8>> = view_of_reply(outcome);
                    deliver_message(store, &self.recipients, self.body.as_slice(), outcome);
                    self.state = SmtpState::Idle;
                    self.sender = None;
                    self.recipients = Vec::new();
                    self.body = Vec::new();
                    let reply = reply_bytes("250 OK message accepted\r\n");
                    proof {
                        assert(self@ =~~= reset_model());
                        let step = smtp_step(old(self)@, line@, signed);
                        assert((match signed {
                            Some(sm) => sm,
                            None => old(self)@.body,
                        }) == step.delivered.unwrap());
                        assert(process_line_post(
                            old(self)@,
                            *old(store),
                            self@,
                            *store,
                            line@,
                            signed,
                            Some(reply@),
                        ));
                    }
                    Some(reply)
                } else {
                    append_bytes(&mut self.body, line);
                    self.body.push(10);
                    proof {
                        assert(line@ != seq![46u8]) by {
                            if line@ == seq![46u8] {
                                assert(line@.len() == 1);
                            }
                        }
                        let step = smtp_step(old(self)@, line@, None);
                        assert(self.body@ =~= old(self)@.body + line@ + seq![10u8]);
                        assert(self@ =~~= step.next);
                        assert(process_line_post(
                            old(self)@,
                            *old(store),
                            self@,
                            *store,
                            line@,
                            None,
                            None,
                        ));
                    }
                    None
                }
            },
            SmtpState::Closed => vstd::pervasive::unreached(),
            _ => {
                let r = self.process_command(line);
                proof {
                    assert(process_line_post(
                        old(self)@,
                        *old(store),
                        self@,
                        *store,
                        line@,
                        None,
                        view_of_reply(r),
                    ));
                }
                r
            },
        }
    }

    /// One command line outside of body collection.
    fn process_command(&mut self, line: &[u8]) -> (reply: Option<Vec<u8>>)
        requires
            old(self).wf(),
            !(old(self)@.state is Closed),
            !(old(self)@.state is ReadingBody),
        ensures
            final(self).wf(),
            ({
                let step = smtp_step(old(self)@, line@, None);
                &&& final(self)@ == step.next
                &&& view_of_reply(reply) == step.reply
                &&& step.delivered is None
            }),
    {
        let toks = tokenize(line);
        let ghost stoks = tokens_of(line@);
        if toks.len() == 0 {
            return None;
        }
        proof {
            assert(toks.deep_view()[0] =~= toks@[0]@);
        }
        let verb = to_upper(toks[0].as_slice());
        proof {
            assert(verb@ == upper_seq(stoks[0]));
        }
        if bytes_eq(verb.as_slice(), ("HELO").as_bytes()) || bytes_eq(
            verb.as_slice(),
            ("EHLO").as_bytes(),
        ) {
            Some(reply_bytes("250 Hello\r\n"))
        } else if bytes_eq(verb.as_slice(), ("MAIL").as_bytes()) {
            match after_colon(line) {
                Some(rest) => {
                    let addr = extract_addr(rest.as_slice());
                    self.sender = Some(addr);
                    if matches!(self.state, SmtpState::Idle) {
                        self.state = SmtpState::HasSender;
                    }
                    proof {
                        let step = smtp_step(old(self)@, line@, None);
                        assert(self@ =~~= step.next);
                    }
                    Some(reply_bytes("250 OK\r\n"))
                },
                None => Some(reply_bytes("500 Missing address\r\n")),
            }
        } else if bytes_eq(verb.as_slice(), ("RCPT").as_bytes()) {
            match after_colon(line) {
                Some(rest) => {
                    let addr = extract_addr(rest.as_slice());
                    let ghost pre = self.recipients.deep_view();
                    if !contains_addr(&self.recipients, addr.as_slice()) {
                        self.recipients.push(addr);
                        proof {
                            assert(self.recipients.deep_view() =~~= pre.push(
                                mail_addr(colon_split(line@).unwrap()),
                            ));
                            assert forall|i: int, j: int|
                                0 <= i < j < self.recipients.deep_view().len() implies self.recipients.deep_view()[i]
                                != self.recipients.deep_view()[j] by {
                                if j == pre.len() {
                                    assert(!pre.contains(pre.push(
                                        mail_addr(colon_split(line@).unwrap()),
                                    )[j]) ==> pre[i] != self.recipients.deep_view()[j]);
                                }
                            }
                        }
                    }
                    self.state = SmtpState::HasRecipients;
                    proof {
                        let step = smtp_step(old(self)@, line@, None);
                        assert(self@ =~~= step.next);
                    }
                    Some(reply_bytes("250 OK\r\n"))
                },
                None => Some(reply_bytes("500 Missing address\r\n")),
            }
        } else if bytes_eq(verb.as_slice(), ("DATA").as_bytes()) {
            if self.recipients.len() > 0 {
                self.state = SmtpState::ReadingBody;
                proof {
                    let step = smtp_step(old(self)@, line@, None);
                    assert(self@ =~~= step.next);
                }
                Some(reply_bytes("354 End data with a single dot line\r\n"))
            } else {
                Some(reply_bytes("554 No valid recipients\r\n"))
            }
        } else if bytes_eq(verb.as_slice(), ("QUIT").as_bytes()) {
            self.state = SmtpState::Closed;
            proof {
                let step = smtp_step(old(self)@, line@, None);
                assert(self@ =~~= step.next);
            }
            Some(reply_bytes("221 Bye\r\n"))
        } else {
            Some(reply_bytes("500 Unknown command\r\n"))
        }
    }
}

/// Whether `a` is already among the pending recipients.
fn contains_addr(v: &Vec<Vec<u8>>, a: &[u8]) -> (r: bool)
    ensures
        r == v.deep_view().contains(a@),
{
    let n = v.len();
    let mut i: usize = 0;
    #[verifier::loop_isolation(false)]
    while i < n
        invariant
            0 <= i <= n,
            forall|k: int| 0 <= k < i ==> v.deep_view()[k] != a@,
        decreases n - i,
    {
        proof {
            assert(v.deep_view()[i as int] =~= v@[i as int]@);
        }
        if bytes_eq(v[i].as_slice(), a) {
            proof {
                assert(v.deep_view()[i as int] == a@);
            }
            return true;
        }
        i += 1;
    }
    proof {
        if v.deep_view().contains(a@) {
            let k = choose|k: int| 0 <= k < v.deep_view().len() && v.deep_view()[k] == a@;
            assert(v.deep_view()[k] != a@);
        }
    }
    false
}

/// The bytes of a fixed reply line.
fn reply_bytes(s: &str) -> (r: Vec<u8>)
    ensures
        r@ == s.spec_bytes(),
{
    copy_bytes(s.as_bytes())
}

/// The connect-time gate of the submission protocol: one admission check for
/// the peer address; on Allow the ready banner and an open session, on Deny
/// a throttling reply naming the wait, and no session.
pub fn on_connect(limiter: &mut RateLimiter, peer: &str, now: u64) -> (r: (Vec<u8>, bool))
    requires
        old(limiter).wf(),
    ensures
        final(limiter).wf(),
        final(limiter).spec_config() == old(limiter).spec_config(),
        ({
            let k = vstd::utf8::encode_utf8(peer@);
            let burst = old(limiter).spec_config().submission_burst;
            let period = old(limiter).spec_config().submission_period;
            let b0 = entry_or_full(old(limiter).submission_bucket(k), now, burst);
            &&& final(limiter).submission_bucket(k) == Some(bucket_next(b0, now, burst, period))
            &&& forall|k2: Seq<u8>| k2 != k ==> #[trigger] final(limiter).submission_bucket(k2)
                == old(limiter).submission_bucket(k2)
            &&& forall|k2: Seq<u8>| #[trigger] final(limiter).retrieval_bucket(k2) == old(
                limiter,
            ).retrieval_bucket(k2)
            &&& match bucket_decision(b0, now, burst, period) {
                LimitDecision::Allow => r.1 == true && r.0@ == smtp_ready(),
                LimitDecision::Deny { retry_after } => r.1 == false && r.0@ == smtp_throttled(
                    retry_after,
                ),
            }
        }),
{
    let d = limiter.check_smtp_limit(peer, now);
    match d {
        LimitDecision::Allow => (reply_bytes("220 temp-mail SMTP ready\r\n"), true),
        LimitDecision::Deny { retry_after } => {
            let mut v = reply_bytes("421 Too many requests, retry after ");
            append_dec(&mut v, retry_after);
            append_bytes(&mut v, ("\r\n").as_bytes());
            (v, false)
        },
    }
}

/// Law: round trip. A body submitted on the terminator line reaches every
/// pending recipient's mailbox as that mailbox's new last message — the
/// body itself when no signed copy was produced, the signed copy otherwise.
pub proof fn lemma_round_trip(
    m0: SmtpModel,
    s0: EmailStorage,
    s1: EmailStorage,
    signed: Option<Seq<u8>>,
    a: Seq<u8>,
)
    requires
        m0.state is ReadingBody,
        delivered_to(s0, s1, m0.recipients, smtp_step(m0, seq![46u8], signed).delivered.unwrap()),
        m0.recipients.contains(a),
    ensures
        s1.mailbox(a).len() == s0.mailbox(a).len() + 1,
        s1.mailbox(a).last() == match signed {
            Some(sm) => sm,
            None => m0.body,
        },
{
    let i = choose|i: int| 0 <= i < m0.recipients.len() && m0.recipients[i] == a;
    assert(s1.mailbox(m0.recipients[i]) == s0.mailbox(m0.recipients[i]).push(
        smtp_step(m0, seq![46u8], signed).delivered.unwrap(),
    ));
}

/// Law: round trip under signing. When the signer produced a signed copy of
/// the body, each recipient's new last message still carries the body
/// unchanged, as its suffix.
pub proof fn lemma_round_trip_signed(
    m0: SmtpModel,
    s0: EmailStorage,
    s1: EmailStorage,
    sm: Seq<u8>,
    domain: Seq<u8>,
    selector: Seq<u8>,
    a: Seq<u8>,
)
    requires
        m0.state is ReadingBody,
        delivered_to(
            s0,
            s1,
            m0.recipients,
            smtp_step(m0, seq![46u8], Some(sm)).delivered.unwrap(),
        ),
        m0.recipients.contains(a),
        is_signed_form(sm, domain, selector, m0.body),
    ensures
        s1.mailbox(a).last() == sm,
        sm.len() >= m0.body.len(),
        s1.mailbox(a).last().skip(sm.len() - m0.body.len()) == m0.body,
{
    lemma_round_trip(m0, s0, s1, Some(sm), a);
    crate::signer::lemma_signed_keeps_body(sm, domain, selector, m0.body);
}

} // verus!
