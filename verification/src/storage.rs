//! The in-memory mailbox store: for each recipient address (a byte string),
//! the ordered sequence of messages accepted for it. Appends always succeed;
//! reads return snapshots; an absent mailbox reads as empty.

use vstd::prelude::*;

use crate::text::{bytes_eq, copy_bytes};

verus! {

/// Messages recorded for `addr` among `entries`, in arrival order: an entry
/// is one accepted (address, message) pair, appended at the end.
spec fn lookup(entries: Seq<(Vec<u8>, Vec<u8>)>, addr: Seq<u8>) -> Seq<Seq<u8>>
    decreases entries.len(),
{
    if entries.len() == 0 {
        Seq::empty()
    } else {
        let rest = lookup(entries.drop_first(), addr);
        if entries[0].0@ == addr {
            seq![entries[0].1@] + rest
        } else {
            rest
        }
    }
}

spec fn holds_key(entries: Seq<(Vec<u8>, Vec<u8>)>, addr: Seq<u8>) -> bool {
    exists|i: int| 0 <= i < entries.len() && entries[i].0@ == addr
}

/// Appending one entry extends exactly the mailbox of its own address.
proof fn lemma_lookup_push(entries: Seq<(Vec<u8>, Vec<u8>)>, e: (Vec<u8>, Vec<u8>), addr: Seq<u8>)
    ensures
        lookup(entries.push(e), addr) == if e.0@ == addr {
            lookup(entries, addr).push(e.1@)
        } else {
            lookup(entries, addr)
        },
    decreases entries.len(),
{
    let p = entries.push(e);
    if entries.len() == 0 {
        assert(p.len() == 1);
        assert(p[0] == e);
        assert(p.drop_first() =~= Seq::<(Vec<u8>, Vec<u8>)>::empty());
        assert(lookup(p.drop_first(), addr) == Seq::<Seq<u8>>::empty());
        assert(lookup(entries, addr) == Seq::<Seq<u8>>::empty());
        if e.0@ == addr {
            assert(lookup(p, addr) == seq![e.1@] + Seq::<Seq<u8>>::empty());
            assert(seq![e.1@] + Seq::<Seq<u8>>::empty() =~= Seq::<Seq<u8>>::empty().push(e.1@));
        }
    } else {
        assert(p[0] == entries[0]);
        assert(p.drop_first() =~= entries.drop_first().push(e));
        lemma_lookup_push(entries.drop_first(), e, addr);
        if e.0@ == addr && entries[0].0@ == addr {
            assert(seq![entries[0].1@] + lookup(entries.drop_first(), addr).push(e.1@) =~= (
            seq![entries[0].1@] + lookup(entries.drop_first(), addr)).push(e.1@));
        }
    }
}

/// The in-memory mailbox store.
pub struct EmailStorage {
    entries: Vec<(Vec<u8>, Vec<u8>)>,
}

impl EmailStorage {
    /// The mailbox of `addr`: all messages accepted for it, in arrival order.
    /// An address with no accepted message has the empty mailbox.
    pub closed spec fn mailbox(&self, addr: Seq<u8>) -> Seq<Seq<u8>> {
        lookup(self.entries@, addr)
    }

    /// Whether any message was ever accepted for `addr`.
    pub closed spec fn has_box(&self, addr: Seq<u8>) -> bool {
        holds_key(self.entries@, addr)
    }

    /// An empty store: every mailbox is empty.
    pub fn new() -> (s: Self)
        ensures
            forall|a: Seq<u8>| #[trigger] s.mailbox(a) == Seq::<Seq<u8>>::empty(),
            forall|a: Seq<u8>| !(#[trigger] s.has_box(a)),
    {
        EmailStorage { entries: Vec::new() }
    }

    /// Appends `message` at the end of the mailbox of `addr`; no other
    /// mailbox changes. Always succeeds.
    pub fn add_message(&mut self, addr: &[u8], message: Vec<u8>)
        ensures
            final(self).mailbox(addr@) == old(self).mailbox(addr@).push(message@),
            forall|a: Seq<u8>| a != addr@ ==> #[trigger] final(self).mailbox(a) == old(self).mailbox(a),
            forall|a: Seq<u8>| #[trigger]
                final(self).has_box(a) == (old(self).has_box(a) || a == addr@),
    {
        let key = copy_bytes(addr);
        let entry = (key, message);
        let ghost gentry = entry;
        proof {
            assert forall|a: Seq<u8>| true implies #[trigger] lookup(
                old(self).entries@.push(gentry),
                a,
            ) == if a == addr@ {
                lookup(old(self).entries@, a).push(message@)
            } else {
                lookup(old(self).entries@, a)
            } by {
                lemma_lookup_push(old(self).entries@, gentry, a);
            }
            assert forall|a: Seq<u8>| true implies #[trigger] holds_key(
                old(self).entries@.push(gentry),
                a,
            ) == (holds_key(old(self).entries@, a) || a == addr@) by {
                let pushed = old(self).entries@.push(gentry);
                if holds_key(old(self).entries@, a) {
                    let i = choose|i: int|
                        0 <= i < old(self).entries@.len() && old(self).entries@[i].0@ == a;
                    assert(pushed[i].0@ == a);
                }
                if a == addr@ {
                    assert(pushed[pushed.len() - 1].0@ == a);
                }
                if holds_key(pushed, a) {
                    let i = choose|i: int| 0 <= i < pushed.len() && pushed[i].0@ == a;
                    if i < old(self).entries@.len() {
                        assert(old(self).entries@[i].0@ == a);
                    }
                }
            }
        }
        self.entries.push(entry);
    }

    /// A snapshot of the mailbox of `addr`, with a flag saying whether any
    /// message was ever accepted for it.
    fn collect(&self, addr: &[u8]) -> (r: (bool, Vec<Vec<u8>>))
        ensures
            r.0 == self.has_box(addr@),
            r.1.deep_view() == self.mailbox(addr@),
    {
        let mut found = false;
        let mut acc: Vec<Vec<u8>> = Vec::new();
        let mut i: usize = 0;
        let n = self.entries.len();
        proof {
            assert(acc.deep_view() =~~= lookup(self.entries@.take(0), addr@));
        }
        #[verifier::loop_isolation(false)]
        while i < n
            invariant
                0 <= i <= n,
                n == self.entries@.len(),
                found == holds_key(self.entries@.take(i as int), addr@),
                acc.deep_view() == lookup(self.entries@.take(i as int), addr@),
            decreases n - i,
        {
            let ghost pre = self.entries@.take(i as int);
            let ghost e = self.entries@[i as int];
            proof {
                assert(self.entries@.take(i + 1 as int) =~= pre.push(e));
                lemma_lookup_push(pre, e, addr@);
                if holds_key(pre, addr@) {
                    let j = choose|j: int| 0 <= j < pre.len() && pre[j].0@ == addr@;
                    assert(pre.push(e)[j].0@ == addr@);
                }
                if e.0@ == addr@ {
                    assert(pre.push(e)[pre.len() as int].0@ == addr@);
                }
                if holds_key(pre.push(e), addr@) && e.0@ != addr@ {
                    let j = choose|j: int| 0 <= j < pre.push(e).len() && pre.push(e)[j].0@ == addr@;
                    assert(j < pre.len());
                    assert(pre[j].0@ == addr@);
                }
            }
            if bytes_eq(self.entries[i].0.as_slice(), addr) {
                found = true;
                let msg = copy_bytes(self.entries[i].1.as_slice());
                acc.push(msg);
                proof {
                    assert(acc.deep_view() =~~= lookup(pre, addr@).push(e.1@));
                }
            }
            i += 1;
        }
        proof {
            assert(self.entries@.take(n as int) =~= self.entries@);
        }
        (found, acc)
    }

    /// A snapshot of the mailbox of `addr` at call time; empty when no
    /// message was ever accepted for `addr`.
    pub fn list_messages(&self, addr: &[u8]) -> (r: Vec<Vec<u8>>)
        ensures
            r.deep_view() == self.mailbox(addr@),
    {
        let (_, acc) = self.collect(addr);
        acc
    }

    /// The message at 1-based position `index` of the mailbox of `addr` at
    /// call time; out-of-range positions yield nothing.
    pub fn fetch_message(&self, addr: &[u8], index: usize) -> (r: Option<Vec<u8>>)
        ensures
            match r {
                Some(m) => 1 <= index <= self.mailbox(addr@).len() && m@ == self.mailbox(addr@)[
                    index - 1
                ],
                None => !(1 <= index <= self.mailbox(addr@).len()),
            },
    {
        let msgs = self.list_messages(addr);
        if 1 <= index && index <= msgs.len() {
            let m = copy_bytes(msgs[index - 1].as_slice());
            proof {
                assert(msgs.deep_view()[index - 1] == msgs@[index - 1].deep_view());
            }
            Some(m)
        } else {
            None
        }
    }

    /// How many messages the mailbox of `addr` holds at call time.
    pub fn count_messages(&self, addr: &[u8]) -> (r: usize)
        ensures
            r == self.mailbox(addr@).len(),
    {
        let (_, acc) = self.collect(addr);
        acc.len()
    }

    /// Appends `raw_email` to the mailbox whose address is the UTF-8
    /// encoding of `address`.
    pub fn add_email(&mut self, address: String, raw_email: Vec<u8>)
        ensures
            final(self).mailbox(vstd::utf8::encode_utf8(address@)) == old(self).mailbox(
                vstd::utf8::encode_utf8(address@),
            ).push(raw_email@),
            forall|a: Seq<u8>| a != vstd::utf8::encode_utf8(address@) ==> #[trigger] final(self).mailbox(a) == old(self).mailbox(a),
    {
        let key = address.as_str().as_bytes();
        self.add_message(key, raw_email);
    }

    /// The mailbox whose address is the UTF-8 encoding of `address`: a
    /// snapshot when any message was accepted for it, nothing otherwise.
    pub fn get_emails(&self, address: &str) -> (r: Option<Vec<Vec<u8>>>)
        ensures
            match r {
                Some(v) => self.has_box(vstd::utf8::encode_utf8(address@)) && v.deep_view()
                    == self.mailbox(vstd::utf8::encode_utf8(address@)),
                None => !self.has_box(vstd::utf8::encode_utf8(address@)),
            },
    {
        let key = address.as_bytes();
        let (found, acc) = self.collect(key);
        if found {
            Some(acc)
        } else {
            None
        }
    }
}

/// Law: atomic appends to one mailbox accumulate. When a mailbox passes
/// through a chain of states, each adding one message at the end, the final
/// state holds the initial messages followed by every added message, each
/// intact and in order.
pub proof fn lemma_appends_accumulate(states: Seq<Seq<Seq<u8>>>, msgs: Seq<Seq<u8>>)
    requires
        states.len() == msgs.len() + 1,
        forall|i: int| 0 <= i < msgs.len() ==> #[trigger] states[i + 1] == states[i].push(msgs[i]),
    ensures
        states.last() == states[0] + msgs,
        states.last().len() == states[0].len() + msgs.len(),
        forall|i: int| 0 <= i < msgs.len() ==> #[trigger] states.last()[states[0].len() + i]
            == msgs[i],
    decreases msgs.len(),
{
    if msgs.len() == 0 {
        assert(states[0] + msgs =~= states[0]);
    } else {
        lemma_appends_accumulate(states.drop_last(), msgs.drop_last());
        assert(states.drop_last().last() == states[states.len() - 2]);
        assert(states.last() == states[states.len() - 2].push(msgs[msgs.len() - 1]));
        assert((states[0] + msgs.drop_last()).push(msgs.last()) =~= states[0] + msgs);
    }
}

} // verus!
