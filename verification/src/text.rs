//! Building blocks for text: decimal numerals, byte-wise comparison and search.

use vstd::prelude::*;
use vstd::string::*;
use vstd::utf8::*;

verus! {

/// The character that stands for the decimal digit `d` (0 to 9).
pub open spec fn digit_char(d: nat) -> char {
    if d == 0 {
        '0'
    } else if d == 1 {
        '1'
    } else if d == 2 {
        '2'
    } else if d == 3 {
        '3'
    } else if d == 4 {
        '4'
    } else if d == 5 {
        '5'
    } else if d == 6 {
        '6'
    } else if d == 7 {
        '7'
    } else if d == 8 {
        '8'
    } else {
        '9'
    }
}

/// The decimal numeral of `n`: no sign, no leading zero but for zero itself.
pub open spec fn decimal(n: nat) -> Seq<char>
    decreases n,
{
    if n < 10 {
        seq![digit_char(n)]
    } else {
        decimal(n / 10).push(digit_char(n % 10))
    }
}

/// The one-character text of a decimal digit.
fn digit_str(d: u8) -> (s: &'static str)
    requires
        d < 10,
    ensures
        s@ == seq![digit_char(d as nat)],
{
    proof {
        reveal_strlit("0");
        reveal_strlit("1");
        reveal_strlit("2");
        reveal_strlit("3");
        reveal_strlit("4");
        reveal_strlit("5");
        reveal_strlit("6");
        reveal_strlit("7");
        reveal_strlit("8");
        reveal_strlit("9");
    }
    let s = if d == 0 {
        "0"
    } else if d == 1 {
        "1"
    } else if d == 2 {
        "2"
    } else if d == 3 {
        "3"
    } else if d == 4 {
        "4"
    } else if d == 5 {
        "5"
    } else if d == 6 {
        "6"
    } else if d == 7 {
        "7"
    } else if d == 8 {
        "8"
    } else {
        "9"
    };
    s
}

/// Appends the decimal numeral of `n` to `out`.
pub fn push_decimal(out: &mut String, n: u128)
    ensures
        final(out)@ == old(out)@ + decimal(n as nat),
    decreases n,
{
    if n >= 10 {
        push_decimal(out, n / 10);
    }
    let d: u8 = (n % 10) as u8;
    out.append(digit_str(d));
}

/// The decimal numeral of `n` as a string.
pub fn decimal_string(n: u128) -> (s: String)
    ensures
        s@ == decimal(n as nat),
{
    let mut s = String::new();
    push_decimal(&mut s, n);
    s
}

/// Whether `s` begins with `pat`.
pub open spec fn starts_with(s: Seq<u8>, pat: Seq<u8>) -> bool {
    pat.len() <= s.len() && s.take(pat.len() as int) == pat
}

/// `s` without the occurrences of `pat`: they are looked for from the left, and
/// none overlaps one that was found before it. An empty `pat` occurs nowhere.
pub open spec fn without(s: Seq<u8>, pat: Seq<u8>) -> Seq<u8>
    decreases s.len(),
{
    if s.len() == 0 || pat.len() == 0 {
        s
    } else if starts_with(s, pat) {
        without(s.skip(pat.len() as int), pat)
    } else {
        seq![s[0]] + without(s.skip(1), pat)
    }
}

/// Whether `pat` stands in `s` at index `at`.
pub fn matches_at(s: &[u8], at: usize, pat: &[u8]) -> (found: bool)
    requires
        at <= s@.len(),
    ensures
        found == starts_with(s@.skip(at as int), pat@),
{
    if pat.len() > s.len() - at {
        return false;
    }
    let ghost rest = s@.skip(at as int);
    let n = s.len();
    let mut k: usize = 0;
    while k < pat.len()
        invariant
            k <= pat@.len(),
            n == s@.len(),
            at + pat@.len() <= n,
            rest == s@.skip(at as int),
            forall|j: int| 0 <= j < k ==> rest[j] == pat@[j],
        decreases pat@.len() - k,
    {
        if s[at + k] != pat[k] {
            return false;
        }
        k += 1;
    }
    assert(rest.take(pat@.len() as int) =~= pat@);
    true
}

/// Copies `s`, leaving out the occurrences of `pat`.
pub fn remove_all(s: &[u8], pat: &[u8]) -> (out: Vec<u8>)
    ensures
        out@ == without(s@, pat@),
{
    let mut out: Vec<u8> = Vec::new();
    let mut i: usize = 0;
    assert(s@.skip(0) =~= s@);
    while i < s.len()
        invariant
            i <= s@.len(),
            out@ + without(s@.skip(i as int), pat@) == without(s@, pat@),
        decreases s@.len() - i,
    {
        let ghost rest = s@.skip(i as int);
        if pat.len() > 0 && matches_at(s, i, pat) {
            assert(rest.skip(pat@.len() as int) =~= s@.skip(i + pat@.len()));
            i += pat.len();
        } else {
            assert(rest.skip(1) =~= s@.skip(i + 1));
            assert(out@.push(s@[i as int]) + without(rest.skip(1), pat@) =~= out@ + without(
                rest,
                pat@,
            ));
            out.push(s[i]);
            i += 1;
        }
    }
    out
}

/// A text shorter than `pat` holds no occurrence of it.
pub proof fn lemma_without_short(s: Seq<u8>, pat: Seq<u8>)
    requires
        s.len() < pat.len(),
    ensures
        without(s, pat) == s,
    decreases s.len(),
{
    if s.len() > 0 {
        lemma_without_short(s.skip(1), pat);
    }
}

/// Where the first byte of `pat` does not occur in `head`, no occurrence of
/// `pat` begins in `head`: `head` stays, and the rest is searched by itself.
pub proof fn lemma_without_after_plain(head: Seq<u8>, s: Seq<u8>, pat: Seq<u8>)
    requires
        pat.len() > 0,
        forall|i: int| 0 <= i < head.len() ==> head[i] != pat[0],
    ensures
        without(head + s, pat) == head + without(s, pat),
    decreases head.len(),
{
    if head.len() == 0 {
    } else {
        let whole = head + s;
        assert(whole.skip(1) =~= head.skip(1) + s);
        lemma_without_after_plain(head.skip(1), s, pat);
    }
}

/// Where `tail` begins with a byte that `pat` holds at its front only, if at
/// all, no occurrence of `pat` reaches from `s` into `tail`: the two are
/// searched apart.
pub proof fn lemma_without_before_marker(s: Seq<u8>, tail: Seq<u8>, pat: Seq<u8>)
    requires
        tail.len() > 0,
        forall|k: int| 1 <= k < pat.len() ==> pat[k] != tail[0],
    ensures
        without(s + tail, pat) == without(s, pat) + without(tail, pat),
    decreases s.len(),
{
    let whole = s + tail;
    if s.len() == 0 {
    } else if pat.len() == 0 {
    } else {
        let n = pat.len() as int;
        if starts_with(s, pat) {
            assert(whole.take(n) =~= s.take(n));
            assert(whole.skip(n) =~= s.skip(n) + tail);
            lemma_without_before_marker(s.skip(n), tail, pat);
        } else {
            if starts_with(whole, pat) {
                if n <= s.len() {
                    assert(whole.take(n) =~= s.take(n));
                } else {
                    assert(whole.take(n)[s.len() as int] == tail[0]);
                }
            }
            assert(whole.skip(1) =~= s.skip(1) + tail);
            lemma_without_before_marker(s.skip(1), tail, pat);
            assert(seq![s[0]] + (without(s.skip(1), pat) + without(tail, pat)) =~= (seq![s[0]]
                + without(s.skip(1), pat)) + without(tail, pat));
        }
    }
}

/// The UTF-8 form of two texts in a row is that of the first followed by that
/// of the second.
pub proof fn lemma_utf8_concat(a: Seq<char>, b: Seq<char>)
    ensures
        encode_utf8(a + b) == encode_utf8(a) + encode_utf8(b),
    decreases a.len(),
{
    if a.len() == 0 {
    } else {
        assert((a + b).drop_first() =~= a.drop_first() + b);
        lemma_utf8_concat(a.drop_first(), b);
        assert(encode_scalar(a[0] as u32) + (encode_utf8(a.drop_first()) + encode_utf8(b))
            =~= encode_utf8(a) + encode_utf8(b));
    }
}

/// Two texts with the same UTF-8 form are the same text.
pub proof fn lemma_utf8_injective(a: Seq<char>, b: Seq<char>)
    requires
        encode_utf8(a) == encode_utf8(b),
    ensures
        a == b,
{
    encode_utf8_decode_utf8(a);
    encode_utf8_decode_utf8(b);
}

/// The index of the first `byte` in `s`, or the length of `s` where it holds none.
pub open spec fn position(s: Seq<u8>, byte: u8) -> int
    decreases s.len(),
{
    if s.len() == 0 || s[0] == byte {
        0
    } else {
        1 + position(s.skip(1), byte)
    }
}

/// Whether `pat` stands somewhere in `s`.
pub open spec fn contains(s: Seq<u8>, pat: Seq<u8>) -> bool {
    exists|i: int| 0 <= i <= s.len() && #[trigger] starts_with(s.skip(i), pat)
}

/// A position is an index of `s`, no byte before it is `byte`, and the byte at
/// it is, where it is not the end of `s`.
pub proof fn lemma_position(s: Seq<u8>, byte: u8)
    ensures
        0 <= position(s, byte) <= s.len(),
        forall|j: int| 0 <= j < position(s, byte) ==> s[j] != byte,
        position(s, byte) < s.len() ==> s[position(s, byte)] == byte,
    decreases s.len(),
{
    if s.len() == 0 || s[0] == byte {
    } else {
        lemma_position(s.skip(1), byte);
        assert forall|j: int| 0 <= j < position(s, byte) implies s[j] != byte by {
            if j > 0 {
                assert(s.skip(1)[j - 1] == s[j]);
            }
        }
    }
}

/// Finds the first `byte` in `s`.
pub fn find_byte(s: &[u8], byte: u8) -> (at: usize)
    ensures
        at == position(s@, byte),
        at <= s@.len(),
{
    let mut i: usize = 0;
    assert(s@.skip(0) =~= s@);
    while i < s.len() && s[i] != byte
        invariant
            i <= s@.len(),
            position(s@, byte) == i + position(s@.skip(i as int), byte),
        decreases s@.len() - i,
    {
        assert(s@.skip(i as int).skip(1) =~= s@.skip(i + 1));
        i += 1;
    }
    i
}

/// Tells whether `pat` stands somewhere in `s`.
pub fn contains_bytes(s: &[u8], pat: &[u8]) -> (found: bool)
    ensures
        found == contains(s@, pat@),
{
    let mut i: usize = 0;
    while i <= s.len()
        invariant
            i <= s@.len() + 1,
            forall|j: int| 0 <= j < i ==> !#[trigger] starts_with(s@.skip(j), pat@),
        decreases s@.len() + 1 - i,
    {
        if matches_at(s, i, pat) {
            return true;
        }
        if i == s.len() {
            return false;
        }
        i += 1;
    }
    false
}

/// Cuts `s` in two before its byte `mid`, which begins a character or is the end.
pub fn split_before<'a>(s: &'a str, mid: usize) -> (parts: (&'a str, &'a str))
    requires
        mid <= encode_utf8(s@).len(),
        mid < encode_utf8(s@).len() ==> !is_continuation_byte(encode_utf8(s@)[mid as int]),
    ensures
        encode_utf8(parts.0@) == encode_utf8(s@).take(mid as int),
        encode_utf8(parts.1@) == encode_utf8(s@).skip(mid as int),
{
    proof {
        let bytes = encode_utf8(s@);
        encode_utf8_valid_utf8(s@);
        if mid < bytes.len() {
            is_char_boundary_iff_not_is_continuation_byte(bytes, mid as int);
        } else {
            is_char_boundary_start_end_of_seq(bytes);
        }
    }
    let parts = s.split_at(mid);
    assert(encode_utf8(s@).skip(mid as int) =~= encode_utf8(s@).subrange(
        mid as int,
        encode_utf8(s@).len() as int,
    ));
    parts
}

/// How two things stand to each other in an order.
#[derive(Clone, Copy, PartialEq, Eq, Debug)]
pub enum Order {
    /// The first comes before the second.
    Less,
    /// Neither comes before the other.
    Equal,
    /// The first comes after the second.
    Greater,
}

/// Whether `a` comes before `b` in a dictionary of bytes, or is `b`: the first
/// byte in which they differ decides, and a text comes before those that go on
/// from it.
pub open spec fn lex_le(a: Seq<u8>, b: Seq<u8>) -> bool
    decreases a.len(),
{
    if a.len() == 0 {
        true
    } else if b.len() == 0 {
        false
    } else if a[0] != b[0] {
        a[0] < b[0]
    } else {
        lex_le(a.skip(1), b.skip(1))
    }
}

/// Every text stands in order with itself.
pub proof fn lemma_lex_le_reflexive(a: Seq<u8>)
    ensures
        lex_le(a, a),
    decreases a.len(),
{
    if a.len() > 0 {
        lemma_lex_le_reflexive(a.skip(1));
    }
}

/// Of two texts one comes first.
pub proof fn lemma_lex_le_total(a: Seq<u8>, b: Seq<u8>)
    ensures
        lex_le(a, b) || lex_le(b, a),
    decreases a.len(),
{
    if a.len() > 0 && b.len() > 0 && a[0] == b[0] {
        lemma_lex_le_total(a.skip(1), b.skip(1));
    }
}

/// Two texts that each come no later than the other are the same.
pub proof fn lemma_lex_le_antisymmetric(a: Seq<u8>, b: Seq<u8>)
    requires
        lex_le(a, b),
        lex_le(b, a),
    ensures
        a == b,
    decreases a.len(),
{
    if a.len() == 0 || b.len() == 0 {
    } else {
        lemma_lex_le_antisymmetric(a.skip(1), b.skip(1));
        assert(a =~= seq![a[0]] + a.skip(1));
    }
}

/// What comes no later than a text that comes no later than a third comes no
/// later than the third.
pub proof fn lemma_lex_le_transitive(a: Seq<u8>, b: Seq<u8>, c: Seq<u8>)
    requires
        lex_le(a, b),
        lex_le(b, c),
    ensures
        lex_le(a, c),
    decreases a.len(),
{
    if a.len() > 0 && b.len() > 0 && c.len() > 0 && a[0] == b[0] && b[0] == c[0] {
        lemma_lex_le_transitive(a.skip(1), b.skip(1), c.skip(1));
    }
}

/// Compares two texts byte by byte.
pub fn compare_bytes(a: &[u8], b: &[u8]) -> (order: Order)
    ensures
        order == Order::Less <==> lex_le(a@, b@) && a@ != b@,
        order == Order::Equal <==> a@ == b@,
        order == Order::Greater <==> !lex_le(a@, b@),
{
    let mut i: usize = 0;
    assert(a@.skip(0) =~= a@);
    assert(b@.skip(0) =~= b@);
    while i < a.len() && i < b.len()
        invariant
            i <= a@.len(),
            i <= b@.len(),
            a@.take(i as int) == b@.take(i as int),
            lex_le(a@, b@) == lex_le(a@.skip(i as int), b@.skip(i as int)),
        decreases a@.len() - i,
    {
        let ghost x = a@.skip(i as int);
        let ghost y = b@.skip(i as int);
        if a[i] < b[i] {
            return Order::Less;
        }
        if a[i] > b[i] {
            return Order::Greater;
        }
        assert(x.skip(1) =~= a@.skip(i + 1));
        assert(y.skip(1) =~= b@.skip(i + 1));
        i += 1;
    }
    if i < b.len() {
        Order::Less
    } else if i < a.len() {
        Order::Greater
    } else {
        Order::Equal
    }
}

} // verus!
