//! Byte-string helpers shared by both protocol state machines: equality,
//! copying, whitespace tokenization, case folding, decimal rendering and
//! parsing, and locating a separator byte.

use vstd::prelude::*;

verus! {

/// ASCII space or horizontal tab: the separators between command tokens.
pub open spec fn is_space(b: u8) -> bool {
    b == 32 || b == 9
}

/// ASCII upper-casing of one byte; other bytes are unchanged.
pub open spec fn upper(b: u8) -> u8 {
    if 97 <= b && b <= 122 {
        (b - 32) as u8
    } else {
        b
    }
}

/// ASCII upper-casing of a byte string.
pub open spec fn upper_seq(s: Seq<u8>) -> Seq<u8> {
    s.map_values(|b: u8| upper(b))
}

/// Position of the first occurrence of `b` in `s`, if any.
pub open spec fn find_byte(s: Seq<u8>, b: u8) -> Option<int>
    decreases s.len(),
{
    if s.len() == 0 {
        None
    } else if s[0] == b {
        Some(0)
    } else {
        match find_byte(s.drop_first(), b) {
            Some(i) => Some(i + 1),
            None => None,
        }
    }
}

/// The tail of `s` after its leading spaces.
pub open spec fn skip_spaces(s: Seq<u8>) -> Seq<u8>
    decreases s.len(),
{
    if s.len() == 0 {
        s
    } else if is_space(s[0]) {
        skip_spaces(s.drop_first())
    } else {
        s
    }
}

/// The longest space-free prefix of `s`.
pub open spec fn take_token(s: Seq<u8>) -> Seq<u8>
    decreases s.len(),
{
    if s.len() == 0 || is_space(s[0]) {
        Seq::empty()
    } else {
        seq![s[0]] + take_token(s.drop_first())
    }
}

pub proof fn lemma_skip_spaces_len(s: Seq<u8>)
    ensures
        skip_spaces(s).len() <= s.len(),
    decreases s.len(),
{
    if s.len() > 0 && is_space(s[0]) {
        lemma_skip_spaces_len(s.drop_first());
    }
}

pub proof fn lemma_take_token_len(s: Seq<u8>)
    ensures
        take_token(s).len() <= s.len(),
        s.len() > 0 && !is_space(s[0]) ==> take_token(s).len() >= 1,
    decreases s.len(),
{
    if s.len() > 0 && !is_space(s[0]) {
        lemma_take_token_len(s.drop_first());
    }
}

/// The whitespace-separated tokens of `s`, in order.
pub open spec fn tokens_of(s: Seq<u8>) -> Seq<Seq<u8>>
    decreases s.len(),
    via tokens_of_decreases
{
    if skip_spaces(s).len() == 0 {
        Seq::empty()
    } else {
        let rest = skip_spaces(s);
        seq![take_token(rest)] + tokens_of(rest.skip(take_token(rest).len() as int))
    }
}

#[via_fn]
proof fn tokens_of_decreases(s: Seq<u8>) {
    lemma_skip_spaces_len(s);
    lemma_skip_spaces_suffix(s);
    if skip_spaces(s).len() > 0 {
        lemma_take_token_len(skip_spaces(s));
    }
}

/// Leading spaces removed.
pub proof fn lemma_skip_spaces_suffix(s: Seq<u8>)
    ensures
        skip_spaces(s).len() > 0 ==> !is_space(skip_spaces(s)[0]),
    decreases s.len(),
{
    if s.len() > 0 && is_space(s[0]) {
        lemma_skip_spaces_suffix(s.drop_first());
    }
}

/// Skipping one leading space leaves the tokens unchanged.
proof fn lemma_tokens_skip_space(s: Seq<u8>)
    requires
        s.len() > 0,
        is_space(s[0]),
    ensures
        tokens_of(s) == tokens_of(s.drop_first()),
{
    assert(skip_spaces(s) == skip_spaces(s.drop_first()));
}

/// A run of non-space bytes bounded by a space (or the end) is one token.
proof fn lemma_take_token_range(s: Seq<u8>, a: int, b: int)
    requires
        0 <= a <= b <= s.len(),
        forall|k: int| a <= k < b ==> !is_space(#[trigger] s[k]),
        b == s.len() || is_space(s[b]),
    ensures
        take_token(s.skip(a)) == s.subrange(a, b),
    decreases b - a,
{
    if a == b {
        if a < s.len() {
            assert(s.skip(a)[0] == s[a]);
        }
        assert(take_token(s.skip(a)) =~= s.subrange(a, b));
    } else {
        assert(s.skip(a)[0] == s[a]);
        assert(s.skip(a).drop_first() =~= s.skip(a + 1));
        lemma_take_token_range(s, a + 1, b);
        assert(seq![s[a]] + s.subrange(a + 1, b) =~= s.subrange(a, b));
    }
}

/// The whitespace-separated tokens of `line`, materialized.
#[verifier::loop_isolation(false)]
pub fn tokenize(line: &[u8]) -> (r: Vec<Vec<u8>>)
    ensures
        r.deep_view() == tokens_of(line@),
{
    let mut out: Vec<Vec<u8>> = Vec::new();
    let mut i: usize = 0;
    let n = line.len();
    proof {
        assert(out.deep_view() =~~= Seq::<Seq<u8>>::empty());
        assert(line@.skip(0) =~= line@);
    }
    while i < n
        invariant
            0 <= i <= n,
            tokens_of(line@) == out.deep_view() + tokens_of(line@.skip(i as int)),
        decreases n - i,
    {
        if is_space_byte(line[i]) {
            proof {
                lemma_tokens_skip_space(line@.skip(i as int));
                assert(line@.skip(i as int).drop_first() =~= line@.skip(i + 1 as int));
            }
            i += 1;
        } else {
            let start = i;
            let mut j = i + 1;
            while j < n
                invariant
                    start < j <= n,
                    forall|k: int| start <= k < j ==> !is_space(#[trigger] line@[k]),
                decreases n - j,
            {
                if is_space_byte(line[j]) {
                    break ;
                }
                j += 1;
            }
            let tok = vstd::slice::slice_to_vec(vstd::slice::slice_subrange(line, start, j));
            proof {
                let suffix = line@.skip(start as int);
                assert(suffix[0] == line@[start as int]);
                assert(skip_spaces(suffix) == suffix);
                lemma_take_token_range(line@, start as int, j as int);
                assert(take_token(suffix) == tok@);
                lemma_take_token_len(suffix);
                assert(suffix.skip(tok@.len() as int) =~= line@.skip(j as int));
                assert(tokens_of(line@.skip(start as int)) == seq![tok@] + tokens_of(
                    line@.skip(j as int),
                ));
            }
            let ghost pre = out.deep_view();
            out.push(tok);
            proof {
                assert(out.deep_view() =~~= pre.push(tok@));
                assert(pre + (seq![tok@] + tokens_of(line@.skip(j as int))) =~= pre.push(tok@)
                    + tokens_of(line@.skip(j as int)));
            }
            i = j;
        }
    }
    proof {
        assert(line@.skip(n as int) =~= Seq::<u8>::empty());
        assert(tokens_of(line@.skip(n as int)) =~= Seq::<Seq<u8>>::empty());
        assert(out.deep_view() + Seq::<Seq<u8>>::empty() =~= out.deep_view());
    }
    out
}

/// Executable test for `is_space`.
#[verifier::when_used_as_spec(is_space)]
pub fn is_space_byte(b: u8) -> (r: bool)
    ensures
        r == is_space(b),
{
    b == 32 || b == 9
}

/// The bytes after the first colon, if the line has one.
pub open spec fn colon_split(s: Seq<u8>) -> Option<Seq<u8>> {
    match find_byte(s, 58) {
        Some(i) => Some(s.skip(i + 1)),
        None => None,
    }
}

/// The position of `b` when an occurrence is known and no earlier one exists.
pub proof fn lemma_find_byte_at(s: Seq<u8>, b: u8, i: int)
    requires
        0 <= i < s.len(),
        s[i] == b,
        forall|j: int| 0 <= j < i ==> s[j] != b,
    ensures
        find_byte(s, b) == Some(i),
    decreases i,
{
    if i > 0 {
        assert(s.drop_first()[i - 1] == s[i]);
        lemma_find_byte_at(s.drop_first(), b, i - 1);
    }
}

pub proof fn lemma_find_byte_none(s: Seq<u8>, b: u8)
    requires
        forall|j: int| 0 <= j < s.len() ==> s[j] != b,
    ensures
        find_byte(s, b) is None,
    decreases s.len(),
{
    if s.len() > 0 {
        lemma_find_byte_none(s.drop_first(), b);
    }
}

/// The bytes after the first colon of `s`, if any.
#[verifier::loop_isolation(false)]
pub fn after_colon(s: &[u8]) -> (r: Option<Vec<u8>>)
    ensures
        match r {
            Some(v) => colon_split(s@) == Some(v@),
            None => colon_split(s@) is None,
        },
{
    let n = s.len();
    let mut i: usize = 0;
    while i < n
        invariant
            0 <= i <= n,
            forall|j: int| 0 <= j < i ==> s@[j] != 58,
        decreases n - i,
    {
        if s[i] == 58 {
            proof {
                lemma_find_byte_at(s@, 58, i as int);
            }
            let rest = vstd::slice::slice_to_vec(vstd::slice::slice_subrange(s, i + 1, n));
            proof {
                assert(s@.subrange(i + 1 as int, n as int) =~= s@.skip(i + 1 as int));
            }
            return Some(rest);
        }
        i += 1;
    }
    proof {
        lemma_find_byte_none(s@, 58);
    }
    None
}

/// `s` without its trailing spaces.
pub open spec fn trim_end_spaces(s: Seq<u8>) -> Seq<u8>
    decreases s.len(),
{
    if s.len() == 0 {
        s
    } else if is_space(s[s.len() - 1]) {
        trim_end_spaces(s.drop_last())
    } else {
        s
    }
}

/// `s` without leading and trailing spaces.
pub open spec fn trimmed(s: Seq<u8>) -> Seq<u8> {
    trim_end_spaces(skip_spaces(s))
}

/// One leading `<` and one trailing `>` removed, when present.
pub open spec fn strip_angles(s: Seq<u8>) -> Seq<u8> {
    let t = if s.len() > 0 && s[0] == 60 {
        s.skip(1)
    } else {
        s
    };
    if t.len() > 0 && t[t.len() - 1] == 62 {
        t.take(t.len() - 1)
    } else {
        t
    }
}

/// The address written after `MAIL FROM:` or `RCPT TO:`: the bytes after the
/// colon, trimmed, with one surrounding angle-bracket pair removed.
pub open spec fn mail_addr(rest: Seq<u8>) -> Seq<u8> {
    strip_angles(trimmed(rest))
}

/// Extracts the address from the bytes following the colon.
#[verifier::loop_isolation(false)]
pub fn extract_addr(s: &[u8]) -> (r: Vec<u8>)
    ensures
        r@ == mail_addr(s@),
{
    let n = s.len();
    let mut lo: usize = 0;
    proof {
        assert(s@.skip(0) =~= s@);
    }
    while lo < n
        invariant
            0 <= lo <= n,
            skip_spaces(s@) == skip_spaces(s@.skip(lo as int)),
        decreases n - lo,
    {
        if !is_space_byte(s[lo]) {
            break ;
        }
        proof {
            assert(s@.skip(lo as int)[0] == s@[lo as int]);
            assert(s@.skip(lo as int).drop_first() =~= s@.skip(lo + 1 as int));
        }
        lo += 1;
    }
    proof {
        if lo < n {
            assert(s@.skip(lo as int)[0] == s@[lo as int]);
        }
        assert(skip_spaces(s@) == s@.skip(lo as int));
    }
    let mut hi: usize = n;
    proof {
        assert(s@.subrange(lo as int, n as int) =~= s@.skip(lo as int));
    }
    while hi > lo
        invariant
            lo <= hi <= n,
            trim_end_spaces(s@.skip(lo as int)) == trim_end_spaces(
                s@.subrange(lo as int, hi as int),
            ),
        decreases hi,
    {
        if !is_space_byte(s[hi - 1]) {
            break ;
        }
        proof {
            let t = s@.subrange(lo as int, hi as int);
            assert(t[t.len() - 1] == s@[hi - 1 as int]);
            assert(t.drop_last() =~= s@.subrange(lo as int, hi - 1 as int));
        }
        hi -= 1;
    }
    proof {
        let t = s@.subrange(lo as int, hi as int);
        if hi > lo {
            assert(t[t.len() - 1] == s@[hi - 1 as int]);
        }
        assert(trim_end_spaces(t) == t);
        assert(trimmed(s@) == s@.subrange(lo as int, hi as int));
    }
    let ghost t = s@.subrange(lo as int, hi as int);
    if hi > lo && s[lo] == 60 {
        proof {
            assert(t[0] == s@[lo as int]);
        }
        lo += 1;
        proof {
            assert(t.skip(1) =~= s@.subrange(lo as int, hi as int));
        }
    }
    let ghost t2 = s@.subrange(lo as int, hi as int);
    proof {
        assert(t2 == if t.len() > 0 && t[0] == 60 {
            t.skip(1)
        } else {
            t
        });
    }
    if hi > lo && s[hi - 1] == 62 {
        proof {
            assert(t2[t2.len() - 1] == s@[hi - 1 as int]);
        }
        hi -= 1;
        proof {
            assert(t2.take(t2.len() - 1) =~= s@.subrange(lo as int, hi as int));
        }
    }
    proof {
        assert(s@.subrange(lo as int, hi as int) == mail_addr(s@));
    }
    vstd::slice::slice_to_vec(vstd::slice::slice_subrange(s, lo, hi))
}

/// The decimal digits of `n`, most significant first.
pub open spec fn dec_digits(n: nat) -> Seq<u8>
    decreases n,
{
    if n < 10 {
        seq![(48 + n) as u8]
    } else {
        dec_digits(n / 10).push((48 + n % 10) as u8)
    }
}

/// Appends the decimal rendering of `n`.
#[verifier::loop_isolation(false)]
pub fn append_dec(out: &mut Vec<u8>, n: u64)
    ensures
        final(out)@ == old(out)@ + dec_digits(n as nat),
{
    if n == 0 {
        out.push(48);
        proof {
            assert(old(out)@ + dec_digits(0) =~= old(out)@.push(48u8));
        }
        return ;
    }
    let mut buf: Vec<u8> = Vec::new();
    let mut m: u64 = n;
    loop
        invariant
            m >= 1,
            dec_digits(n as nat) == if buf@.len() == 0 {
                dec_digits(m as nat)
            } else {
                dec_digits(m as nat) + buf@
            },
        decreases m,
    {
        let d: u8 = (m % 10) as u8 + 48;
        let ghost before = buf@;
        buf.insert(0, d);
        proof {
            assert(buf@ =~= seq![d] + before);
            if m >= 10 {
                assert(dec_digits(m as nat) == dec_digits((m as nat) / 10).push(d));
                assert(dec_digits((m as nat) / 10).push(d) + before =~= dec_digits(
                    (m as nat) / 10,
                ) + (seq![d] + before));
                assert(dec_digits((m as nat) / 10).push(d) =~= dec_digits((m as nat) / 10) + seq![
                    d,
                ]);
            } else {
                assert(dec_digits(m as nat) == seq![d]);
            }
        }
        m = m / 10;
        if m == 0 {
            break ;
        }
    }
    proof {
        assert(dec_digits(n as nat) == buf@);
    }
    append_bytes(out, buf.as_slice());
}

/// Powers of ten.
pub open spec fn pow10(k: nat) -> nat
    decreases k,
{
    if k == 0 {
        1
    } else {
        10 * pow10((k - 1) as nat)
    }
}

/// Whether every byte of `s` is a decimal digit (and `s` is non-empty).
pub open spec fn is_digits(s: Seq<u8>) -> bool {
    s.len() > 0 && forall|k: int| 0 <= k < s.len() ==> 48 <= #[trigger] s[k] <= 57
}

/// The numeric value of a digit string.
pub open spec fn dec_value(s: Seq<u8>) -> nat
    decreases s.len(),
{
    if s.len() == 0 {
        0
    } else {
        dec_value(s.drop_last()) * 10 + (if s[s.len() - 1] >= 48 {
            (s[s.len() - 1] - 48) as nat
        } else {
            0
        })
    }
}

/// An acceptable message index: all digits, at most nine of them.
pub open spec fn valid_index(s: Seq<u8>) -> bool {
    is_digits(s) && s.len() <= 9
}

proof fn lemma_dec_value_bound(s: Seq<u8>)
    requires
        forall|k: int| 0 <= k < s.len() ==> 48 <= #[trigger] s[k] <= 57,
    ensures
        dec_value(s) < pow10(s.len() as nat),
    decreases s.len(),
{
    if s.len() > 0 {
        lemma_dec_value_bound(s.drop_last());
    }
}

/// Parses a 1-based message index: accepted exactly when the bytes are all
/// decimal digits and at most nine of them.
#[verifier::loop_isolation(false)]
pub fn parse_index(s: &[u8]) -> (r: Option<usize>)
    ensures
        match r {
            Some(v) => valid_index(s@) && v == dec_value(s@),
            None => !valid_index(s@),
        },
{
    let n = s.len();
    if n == 0 || n > 9 {
        return None;
    }
    let mut acc: usize = 0;
    let mut i: usize = 0;
    proof {
        assert(s@.take(0) =~= Seq::<u8>::empty());
        reveal_with_fuel(pow10, 10);
    }
    while i < n
        invariant
            0 <= i <= n <= 9,
            forall|k: int| 0 <= k < i ==> 48 <= #[trigger] s@[k] <= 57,
            acc == dec_value(s@.take(i as int)),
            acc < pow10(i as nat),
        decreases n - i,
    {
        let b = s[i];
        if b < 48 || b > 57 {
            return None;
        }
        proof {
            lemma_dec_value_bound(s@.take(i as int));
            assert(pow10(i as nat) <= pow10(8)) by {
                reveal_with_fuel(pow10, 10);
                lemma_pow10_mono(i as nat, 8);
            }
            assert(s@.take(i + 1 as int).drop_last() =~= s@.take(i as int));
            assert(s@.take(i + 1 as int)[i as int] == s@[i as int]);
        }
        acc = acc * 10 + ((b - 48) as usize);
        i += 1;
    }
    proof {
        assert(s@.take(n as int) =~= s@);
    }
    Some(acc)
}

proof fn lemma_pow10_mono(a: nat, b: nat)
    requires
        a <= b,
    ensures
        pow10(a) <= pow10(b),
    decreases b,
{
    if a < b {
        lemma_pow10_mono(a, (b - 1) as nat);
        assert(pow10(b) == 10 * pow10((b - 1) as nat));
    }
}

/// Byte-string equality.
pub fn bytes_eq(a: &[u8], b: &[u8]) -> (r: bool)
    ensures
        r == (a@ == b@),
{
    if a.len() != b.len() {
        proof {
            assert(a@.len() != b@.len());
        }
        return false;
    }
    let mut i: usize = 0;
    #[verifier::loop_isolation(false)]
    while i < a.len()
        invariant
            0 <= i <= a.len(),
            forall|j: int| 0 <= j < i ==> a@[j] == b@[j],
        decreases a.len() - i,
    {
        if a[i] != b[i] {
            return false;
        }
        i += 1;
    }
    proof {
        assert(a@ =~= b@);
    }
    true
}

/// A fresh copy of a byte string.
pub fn copy_bytes(a: &[u8]) -> (r: Vec<u8>)
    ensures
        r@ == a@,
{
    let mut r: Vec<u8> = Vec::new();
    let mut i: usize = 0;
    #[verifier::loop_isolation(false)]
    while i < a.len()
        invariant
            0 <= i <= a.len(),
            r@ == a@.take(i as int),
        decreases a.len() - i,
    {
        r.push(a[i]);
        proof {
            assert(r@ =~= a@.take(i + 1 as int));
        }
        i += 1;
    }
    proof {
        assert(a@.take(a@.len() as int) =~= a@);
    }
    r
}

/// Appends a byte string to the end of a growing buffer.
pub fn append_bytes(dst: &mut Vec<u8>, src: &[u8])
    ensures
        final(dst)@ == old(dst)@ + src@,
{
    let mut i: usize = 0;
    #[verifier::loop_isolation(false)]
    while i < src.len()
        invariant
            0 <= i <= src.len(),
            dst@ == old(dst)@ + src@.take(i as int),
        decreases src.len() - i,
    {
        dst.push(src[i]);
        proof {
            assert(old(dst)@ + src@.take(i as int) + seq![src@[i as int]] =~= old(dst)@
                + src@.take(i + 1 as int));
        }
        i += 1;
    }
    proof {
        assert(src@.take(src@.len() as int) =~= src@);
    }
}

/// ASCII upper-casing of a byte string.
pub fn to_upper(s: &[u8]) -> (r: Vec<u8>)
    ensures
        r@ == upper_seq(s@),
{
    let mut r: Vec<u8> = Vec::new();
    let mut i: usize = 0;
    #[verifier::loop_isolation(false)]
    while i < s.len()
        invariant
            0 <= i <= s.len(),
            r@ == upper_seq(s@.take(i as int)),
        decreases s.len() - i,
    {
        let b = s[i];
        if 97 <= b && b <= 122 {
            r.push(b - 32);
        } else {
            r.push(b);
        }
        proof {
            assert(upper_seq(s@.take(i as int)).push(upper(s@[i as int])) =~= upper_seq(
                s@.take(i + 1 as int),
            ));
        }
        i += 1;
    }
    proof {
        assert(s@.take(s@.len() as int) =~= s@);
        assert(upper_seq(s@.take(s@.len() as int)) =~= upper_seq(s@));
    }
    r
}

} // verus!
