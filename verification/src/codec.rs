//! The wire codec for envelopes: one JSON object per line, written in a
//! canonical form, and a decoder that recovers every field of an
//! envelope the encoder produced.

use vstd::prelude::*;

verus! {

broadcast use vstd::string::axiom_spec_iter, vstd::string::next_postcondition;

/// The characters of a string, in order, as an indexable vector.
pub(crate) fn chars_of(s: &str) -> (r: Vec<char>)
    ensures
        r@ == s@,
{
    let mut r: Vec<char> = Vec::new();
    let mut it = s.chars();
    let ghost mut done: Seq<char> = Seq::empty();
    loop
        invariant
            r@ == done,
            done + vstd::std_specs::iter::IteratorSpec::remaining(&it) == s@,
            vstd::std_specs::iter::IteratorSpec::decrease(&it) is Some,
        ensures
            done == s@,
        decreases vstd::std_specs::iter::IteratorSpec::decrease(&it)->0,
    {
        match it.next() {
            Some(c) => {
                r.push(c);
                proof {
                    done = done.push(c);
                    assert(done + vstd::std_specs::iter::IteratorSpec::remaining(&it) =~= s@);
                }
            },
            None => {
                proof {
                    assert(done =~= s@);
                }
                break ;
            },
        }
    }
    r
}

/// How one character is written inside a JSON string: quote, backslash
/// and the common control characters get a two-character escape,
/// everything else stands for itself.
pub open spec fn escape_char(c: char) -> Seq<char> {
    if c == '"' {
        seq!['\\', '"']
    } else if c == '\\' {
        seq!['\\', '\\']
    } else if c == '\n' {
        seq!['\\', 'n']
    } else if c == '\r' {
        seq!['\\', 'r']
    } else if c == '\t' {
        seq!['\\', 't']
    } else {
        seq![c]
    }
}

/// The escaped form of a whole text.
pub open spec fn escaped(s: Seq<char>) -> Seq<char>
    decreases s.len(),
{
    if s.len() == 0 {
        Seq::empty()
    } else {
        escape_char(s[0]) + escaped(s.drop_first())
    }
}

/// A JSON string literal: the escaped text between two quotes.
pub open spec fn quoted(s: Seq<char>) -> Seq<char> {
    seq!['"'] + escaped(s) + seq!['"']
}

/// Escaping a text processes it character by character.
proof fn lemma_escaped_push(s: Seq<char>, c: char)
    ensures
        escaped(s.push(c)) == escaped(s) + escape_char(c),
    decreases s.len(),
{
    if s.len() == 0 {
        assert(s.push(c)[0] == c);
        assert(s.push(c).drop_first() =~= Seq::<char>::empty());
        assert(escaped(Seq::<char>::empty()) == Seq::<char>::empty());
        assert(escaped(s.push(c)) == escape_char(c) + Seq::<char>::empty());
        assert(escape_char(c) + Seq::<char>::empty() =~= escape_char(c));
        assert(escaped(s) + escape_char(c) =~= escape_char(c));
    } else {
        assert(s.push(c).drop_first() =~= s.drop_first().push(c));
        assert(s.push(c)[0] == s[0]);
        lemma_escaped_push(s.drop_first(), c);
        assert(escaped(s.push(c)) == escape_char(s[0]) + (escaped(s.drop_first())
            + escape_char(c)));
        assert(escape_char(s[0]) + (escaped(s.drop_first()) + escape_char(c)) =~= (escape_char(
            s[0],
        ) + escaped(s.drop_first())) + escape_char(c));
    }
}

/// The digit character of a value below ten reads back as that value.
proof fn lemma_digit_char_val(d: int)
    requires
        0 <= d < 10,
    ensures
        dval(digit_char(d)) == d,
        is_digit(digit_char(d)),
{
}

/// Escaping the text up to and past position `k` differ by exactly the
/// escape of the character at `k`.
proof fn lemma_escaped_take_step(s: Seq<char>, k: int)
    requires
        0 <= k < s.len(),
    ensures
        escaped(s.take(k + 1)) == escaped(s.take(k)) + escape_char(s[k]),
{
    assert(s.take(k + 1) =~= s.take(k).push(s[k]));
    lemma_escaped_push(s.take(k), s[k]);
}

/// The escaped text decomposes around position `k`: what comes before,
/// the escape of the character there, and what comes after.
proof fn lemma_escaped_split(s: Seq<char>, k: int)
    requires
        0 <= k < s.len(),
    ensures
        escaped(s) == escaped(s.take(k)) + escape_char(s[k]) + escaped(s.skip(k + 1)),
    decreases k,
{
    if k == 0 {
        assert(s.take(0) =~= Seq::<char>::empty());
        assert(s.drop_first() =~= s.skip(1));
        assert(escaped(s) =~= escaped(s.take(0)) + escape_char(s[0]) + escaped(s.skip(1)));
    } else {
        assert(s.len() > 0);
        lemma_escaped_split(s.drop_first(), k - 1);
        assert(s.drop_first().take(k - 1) =~= s.take(k).drop_first());
        assert(s.drop_first()[k - 1] == s[k]);
        assert(s.drop_first().skip(k) =~= s.skip(k + 1));
        assert(escaped(s.take(k)) == escape_char(s[0]) + escaped(s.take(k).drop_first())) by {
            assert(s.take(k)[0] == s[0]);
            assert(s.take(k).len() > 0);
        }
        assert(escaped(s) =~= escaped(s.take(k)) + escape_char(s[k]) + escaped(s.skip(k + 1)));
    }
}

/// Whether a character is a decimal digit.
pub open spec fn is_digit(c: char) -> bool {
    48 <= c as u32 <= 57
}

/// The numeric value of a digit character.
pub open spec fn dval(c: char) -> int {
    c as u32 - 48
}

/// The digit character for a value below ten.
pub open spec fn digit_char(d: int) -> char {
    if d == 0 {
        '0'
    } else if d == 1 {
        '1'
    } else if d == 2 {
        '2'
    } else if d == 3 {
        '3'
    } else if d == 4 {
        '4'
    } else if d == 5 {
        '5'
    } else if d == 6 {
        '6'
    } else if d == 7 {
        '7'
    } else if d == 8 {
        '8'
    } else {
        '9'
    }
}

/// The decimal digits of a non-negative number, most significant first,
/// with no leading zeros.
pub open spec fn digits(n: int) -> Seq<char>
    decreases n,
{
    if n < 10 {
        seq![digit_char(n)]
    } else {
        digits(n / 10).push(digit_char(n % 10))
    }
}

/// The number a digit sequence denotes.
pub open spec fn val_of(s: Seq<char>) -> int
    decreases s.len(),
{
    if s.len() == 0 {
        0
    } else {
        val_of(s.drop_last()) * 10 + dval(s.last())
    }
}

/// Digit sequences are non-empty and consist of digit characters.
pub(crate) proof fn lemma_digits_are_digits(n: int)
    requires
        n >= 0,
    ensures
        digits(n).len() >= 1,
        forall|i: int| 0 <= i < digits(n).len() ==> is_digit(#[trigger] digits(n)[i]),
    decreases n,
{
    if n >= 10 {
        lemma_digits_are_digits(n / 10);
    }
}

/// Reading the digits of `n` back yields `n`.
proof fn lemma_val_of_digits(n: int)
    requires
        n >= 0,
    ensures
        val_of(digits(n)) == n,
    decreases n,
{
    if n < 10 {
        assert(digits(n).drop_last() =~= Seq::<char>::empty());
        lemma_digit_char_val(n);
        assert(digits(n).last() == digit_char(n));
        assert(val_of(Seq::<char>::empty()) == 0);
        assert(val_of(digits(n)) == 0 * 10 + dval(digit_char(n)));
    } else {
        lemma_val_of_digits(n / 10);
        assert(digits(n).drop_last() =~= digits(n / 10));
        lemma_digit_char_val(n % 10);
        assert(digits(n).last() == digit_char(n % 10));
        assert(val_of(digits(n)) == (n / 10) * 10 + (n % 10));
        vstd::arithmetic::div_mod::lemma_fundamental_div_mod(n, 10);
        assert(n == 10 * (n / 10) + (n % 10));
    }
}

/// Every prefix of the digits of `n` denotes at most `n`.
proof fn lemma_val_of_digits_prefix(n: int, k: int)
    requires
        n >= 0,
        0 <= k <= digits(n).len(),
    ensures
        0 <= val_of(digits(n).take(k)) <= n,
    decreases n,
{
    lemma_digits_are_digits(n);
    if n < 10 {
        if k == 0 {
            assert(digits(n).take(0) =~= Seq::<char>::empty());
        } else {
            assert(digits(n).take(k) =~= digits(n));
            lemma_val_of_digits(n);
        }
    } else {
        if k == digits(n).len() {
            assert(digits(n).take(k) =~= digits(n));
            lemma_val_of_digits(n);
        } else {
            assert(digits(n).take(k) =~= digits(n / 10).take(k));
            lemma_val_of_digits_prefix(n / 10, k);
        }
    }
}

/// The digit character for `d`, as a runtime value.
fn digit_char_exec(d: usize) -> (r: char)
    requires
        d < 10,
    ensures
        r == digit_char(d as int),
{
    if d == 0 {
        '0'
    } else if d == 1 {
        '1'
    } else if d == 2 {
        '2'
    } else if d == 3 {
        '3'
    } else if d == 4 {
        '4'
    } else if d == 5 {
        '5'
    } else if d == 6 {
        '6'
    } else if d == 7 {
        '7'
    } else if d == 8 {
        '8'
    } else {
        '9'
    }
}

/// Appends the decimal digits of `n`.
pub(crate) fn push_digits(out: &mut Vec<char>, n: usize)
    ensures
        final(out)@ == old(out)@ + digits(n as int),
    decreases n,
{
    if n < 10 {
        out.push(digit_char_exec(n));
    } else {
        push_digits(out, n / 10);
        out.push(digit_char_exec(n % 10));
        proof {
            assert(final(out)@ =~= old(out)@ + digits(n as int));
        }
    }
}

/// Appends the characters of `s` unchanged.
pub(crate) fn push_lit(out: &mut Vec<char>, s: &str)
    ensures
        final(out)@ == old(out)@ + s@,
{
    let cs = chars_of(s);
    let mut i: usize = 0;
    while i < cs.len()
        invariant
            i <= cs.len(),
            cs@ == s@,
            out@ == old(out)@ + s@.take(i as int),
        decreases cs.len() - i,
    {
        out.push(cs[i]);
        proof {
            assert(old(out)@ + s@.take(i as int) + seq![s@[i as int]] =~= old(out)@ + s@.take(
                i as int + 1,
            ));
        }
        i = i + 1;
    }
    proof {
        assert(s@.take(s@.len() as int) =~= s@);
    }
}

/// Relies on `String`'s `FromIterator<char>` impl: collecting
/// characters yields the string made of exactly those characters, in
/// order.
#[verifier::external_body]
pub(crate) fn string_from_chars(v: Vec<char>) -> (r: String)
    ensures
        r@ == v@,
{
    v.into_iter().collect()
}

/// Whether `c` is a decimal digit, decided at runtime.
fn is_digit_exec(c: char) -> (r: bool)
    ensures
        r == is_digit(c),
{
    let u = c as u32;
    48 <= u && u <= 57
}

/// Reads back a JSON string literal written by `push_quoted`. The ghost
/// arguments name what the input holds from `pos` on: the text and
/// whatever follows its closing quote.
pub(crate) fn parse_string(
    cs: &Vec<char>,
    pos: usize,
    Ghost(s): Ghost<Seq<char>>,
    Ghost(rest): Ghost<Seq<char>>,
) -> (r: (String, usize))
    requires
        pos <= cs@.len(),
        cs@.subrange(pos as int, cs@.len() as int) == quoted(s) + rest,
    ensures
        r.0@ == s,
        r.1 == pos + quoted(s).len(),
{
    let ghost tail = quoted(s) + rest;
    let _cs_len: usize = cs.len();
    proof {
        assert(cs@.len() - pos == tail.len());
        assert(escaped(s.take(0)) =~= Seq::<char>::empty());
        assert(quoted(s).len() == escaped(s).len() + 2);
        assert(pos + 2 <= cs@.len());
    }
    let mut acc: Vec<char> = Vec::new();
    let mut i: usize = pos + 1;
    let ghost mut k: int = 0;
    loop
        invariant
            0 <= k <= s.len(),
            acc@ == s.take(k),
            i == pos + 1 + escaped(s.take(k)).len(),
            pos <= cs@.len(),
            cs@.len() <= usize::MAX,
            tail == quoted(s) + rest,
            cs@.subrange(pos as int, cs@.len() as int) == tail,
            cs@.len() - pos == tail.len(),
        ensures
            k == s.len(),
            acc@ == s.take(k),
            i == pos + 1 + escaped(s.take(k)).len(),
            pos <= cs@.len(),
            cs@.len() <= usize::MAX,
            tail == quoted(s) + rest,
            cs@.subrange(pos as int, cs@.len() as int) == tail,
        decreases s.len() - k,
    {
        proof {
            if k < s.len() {
                lemma_escaped_split(s, k);
                assert(tail =~= seq!['"'] + escaped(s.take(k)) + escape_char(s[k]) + (escaped(
                    s.skip(k + 1),
                ) + seq!['"'] + rest));
                assert(escape_char(s[k]).len() >= 1);
                assert(tail[i - pos] == escape_char(s[k])[0]);
                if escape_char(s[k]).len() == 2 {
                    assert(tail[i - pos + 1] == escape_char(s[k])[1]);
                }
            } else {
                assert(s.take(k) =~= s);
                assert(tail =~= seq!['"'] + escaped(s) + (seq!['"'] + rest));
                assert(tail[i - pos] == '"');
            }
            assert(i - pos < tail.len());
            assert(cs@[i as int] == tail[i - pos]);
        }
        let c = cs[i];
        if c == '"' {
            proof {
                if k < s.len() {
                    assert(escape_char(s[k])[0] != '"');
                }
            }
            break ;
        } else if c == '\\' {
            proof {
                assert(k < s.len());
                assert(escape_char(s[k]).len() == 2);
                assert(i - pos + 1 < tail.len());
                assert(cs@[i as int + 1] == tail[i - pos + 1]);
            }
            proof {
                assert(i as int + 2 <= cs@.len());
            }
            let d = cs[i + 1];
            let u: char = if d == '"' {
                '"'
            } else if d == '\\' {
                '\\'
            } else if d == 'n' {
                '\n'
            } else if d == 'r' {
                '\r'
            } else if d == 't' {
                '\t'
            } else {
                proof {
                    assert(false);
                }
                vstd::pervasive::unreached::<char>()
            };
            proof {
                assert(u == s[k]);
            }
            acc.push(u);
            proof {
                lemma_escaped_take_step(s, k);
                assert(acc@ =~= s.take(k + 1));
                k = k + 1;
            }
            i = i + 2;
        } else {
            proof {
                assert(k < s.len());
                assert(escape_char(s[k]).len() == 1);
                assert(c == s[k]);
            }
            acc.push(c);
            proof {
                lemma_escaped_take_step(s, k);
                assert(acc@ =~= s.take(k + 1));
                k = k + 1;
            }
            i = i + 1;
        }
    }
    proof {
        assert(acc@ =~= s);
        assert(quoted(s).len() == escaped(s).len() + 2);
        assert(escaped(s.take(k)) == escaped(s)) by {
            assert(s.take(k) =~= s);
        }
        assert(cs@.len() - pos == tail.len());
        assert(i as int + 1 <= cs@.len());
    }
    (string_from_chars(acc), i + 1)
}

/// Reads back a decimal number written by `push_digits`. The ghost
/// arguments name what the input holds from `pos` on: the value and
/// what follows its digits, which must not begin with a digit.
pub(crate) fn parse_number(
    cs: &Vec<char>,
    pos: usize,
    Ghost(n): Ghost<int>,
    Ghost(rest): Ghost<Seq<char>>,
) -> (r: (usize, usize))
    requires
        0 <= n <= usize::MAX,
        pos <= cs@.len(),
        cs@.subrange(pos as int, cs@.len() as int) == digits(n) + rest,
        rest.len() == 0 || !is_digit(rest[0]),
    ensures
        r.0 == n,
        r.1 == pos + digits(n).len(),
{
    let ghost tail = digits(n) + rest;
    let mut val: usize = 0;
    let mut i: usize = pos;
    let ghost mut k: int = 0;
    proof {
        lemma_digits_are_digits(n);
        assert(val_of(digits(n).take(0)) == 0) by {
            assert(digits(n).take(0) =~= Seq::<char>::empty());
        }
    }
    while i < cs.len() && is_digit_exec(cs[i])
        invariant
            0 <= n <= usize::MAX,
            0 <= k <= digits(n).len(),
            i == pos + k,
            val == val_of(digits(n).take(k)),
            0 <= val <= n,
            pos <= cs@.len(),
            tail == digits(n) + rest,
            cs@.subrange(pos as int, cs@.len() as int) == tail,
            rest.len() == 0 || !is_digit(rest[0]),
            digits(n).len() >= 1,
            forall|j: int| 0 <= j < digits(n).len() ==> is_digit(#[trigger] digits(n)[j]),
        decreases digits(n).len() - k,
    {
        proof {
            assert(cs@.len() - pos == tail.len());
            assert(cs@[i as int] == tail[i - pos]);
            if k == digits(n).len() {
                assert(tail[i - pos] == rest[k - digits(n).len()]);
                assert(!is_digit(cs@[i as int]));
            }
            assert(k < digits(n).len());
            assert(tail[i - pos] == digits(n)[k]);
        }
        let c = cs[i];
        let d = (c as u32 - 48) as usize;
        proof {
            assert(d == dval(digits(n)[k]));
            lemma_val_of_digits_prefix(n, k + 1);
            assert(digits(n).take(k + 1).drop_last() =~= digits(n).take(k));
            assert(digits(n).take(k + 1).last() == digits(n)[k]);
            assert(val_of(digits(n).take(k + 1)) == val * 10 + dval(digits(n)[k]));
        }
        val = val * 10 + d;
        i = i + 1;
        proof {
            k = k + 1;
        }
    }
    proof {
        assert(cs@.len() - pos == tail.len());
        if k < digits(n).len() {
            assert(cs@[i as int] == tail[i - pos]);
            assert(tail[i - pos] == digits(n)[k]);
            assert(is_digit(cs@[i as int]));
            assert(i < cs@.len());
            assert(false);
        }
        assert(val_of(digits(n).take(k)) == n) by {
            assert(digits(n).take(k) =~= digits(n));
            lemma_val_of_digits(n);
        }
    }
    (val, i)
}

/// Appends `s` as a JSON string literal: quoted, with escapes.
pub(crate) fn push_quoted(out: &mut Vec<char>, s: &str)
    ensures
        final(out)@ == old(out)@ + quoted(s@),
{
    out.push('"');
    let cs = chars_of(s);
    let mut i: usize = 0;
    while i < cs.len()
        invariant
            i <= cs.len(),
            cs@ == s@,
            out@ == old(out)@ + seq!['"'] + escaped(s@.take(i as int)),
        decreases cs.len() - i,
    {
        let c = cs[i];
        if c == '"' {
            out.push('\\');
            out.push('"');
        } else if c == '\\' {
            out.push('\\');
            out.push('\\');
        } else if c == '\n' {
            out.push('\\');
            out.push('n');
        } else if c == '\r' {
            out.push('\\');
            out.push('r');
        } else if c == '\t' {
            out.push('\\');
            out.push('t');
        } else {
            out.push(c);
        }
        proof {
            lemma_escaped_take_step(s@, i as int);
            assert(out@ =~= old(out)@ + seq!['"'] + escaped(s@.take(i as int + 1)));
        }
        i = i + 1;
    }
    out.push('"');
    proof {
        assert(s@.take(s@.len() as int) =~= s@);
        assert(out@ =~= old(out)@ + quoted(s@));
    }
}


/// A payload type that can be written to and read back from the wire.
/// `encoded` fixes the canonical text of each payload; encoding appends
/// exactly that text, and decoding, told by its ghost arguments what
/// the input holds, reads the payload back out of it.
pub trait PayloadCodec: View + Sized {
    /// The canonical wire text of a payload of this shape.
    spec fn encoded(v: Self::V) -> Seq<char>;

    /// Every payload's text opens with the `"type":"` key.
    proof fn lemma_encoded_opens_with_type(v: Self::V)
        ensures
            Self::encoded(v).len() >= 8,
            Self::encoded(v).take(8) == "\"type\":\""@,
    ;

    /// Appends the canonical text of this payload.
    fn encode_into(&self, out: &mut Vec<char>)
        ensures
            final(out)@ == old(out)@ + Self::encoded(self@),
    ;

    /// Reads a payload back. The ghost arguments name what the input
    /// holds from `pos` on: the payload and what follows it, which
    /// begins with the closing brace of the body object.
    fn decode_from(cs: &Vec<char>, pos: usize, v: Ghost<Self::V>, rest: Ghost<Seq<char>>) -> (r: (
        Self,
        usize,
    ))
        requires
            pos <= cs@.len(),
            cs@.subrange(pos as int, cs@.len() as int) == Self::encoded(v@) + rest@,
            rest@.len() > 0,
            rest@[0] == '}',
        ensures
            r.0@ == v@,
            r.1 == pos + Self::encoded(v@).len(),
    ;
}

/// The wire text of an optional `msg_id` field: present with a
/// trailing comma, or absent.
pub open spec fn msg_id_part(o: Option<usize>) -> Seq<char> {
    match o {
        Some(n) => "\"msg_id\":"@ + digits(n as int) + ","@,
        None => Seq::empty(),
    }
}

/// The wire text of an optional `in_reply_to` field: present with a
/// trailing comma, or absent.
pub open spec fn in_reply_to_part(o: Option<usize>) -> Seq<char> {
    match o {
        Some(n) => "\"in_reply_to\":"@ + digits(n as int) + ","@,
        None => Seq::empty(),
    }
}

/// The canonical wire text of a whole envelope: one JSON object with
/// the source, the destination, and the body holding the correlation
/// ids that are present followed by the payload's own fields.
pub open spec fn encoded_message<P: PayloadCodec>(m: crate::envelope::MessageView<P::V>) -> Seq<
    char,
> {
    "{\"src\":"@ + quoted(m.src) + ",\"dest\":"@ + quoted(m.dst) + ",\"body\":{"@ + msg_id_part(
        m.body.msg_id,
    ) + in_reply_to_part(m.body.in_reply_to) + P::encoded(m.body.payload) + "}}"@
}

/// Writes an envelope in its canonical wire form, one line's worth of
/// characters.
pub fn encode_message<P: PayloadCodec>(m: &crate::envelope::Message<P>) -> (out: Vec<char>)
    ensures
        out@ == encoded_message::<P>(m@),
{
    let mut out: Vec<char> = Vec::new();
    push_lit(&mut out, "{\"src\":");
    push_quoted(&mut out, m.src.as_str());
    push_lit(&mut out, ",\"dest\":");
    push_quoted(&mut out, m.dst.as_str());
    push_lit(&mut out, ",\"body\":{");
    match m.body.msg_id {
        Some(n) => {
            push_lit(&mut out, "\"msg_id\":");
            push_digits(&mut out, n);
            push_lit(&mut out, ",");
        },
        None => {},
    }
    match m.body.in_reply_to {
        Some(n) => {
            push_lit(&mut out, "\"in_reply_to\":");
            push_digits(&mut out, n);
            push_lit(&mut out, ",");
        },
        None => {},
    }
    m.body.payload.encode_into(&mut out);
    push_lit(&mut out, "}}");
    proof {
        assert(out@ =~= encoded_message::<P>(m@));
    }
    out
}

/// Reads an envelope back from its canonical wire form; the ghost
/// argument names the envelope the line holds.
#[verifier::rlimit(100)]
pub fn decode_message<P: PayloadCodec>(
    cs: &Vec<char>,
    Ghost(v): Ghost<crate::envelope::MessageView<P::V>>,
) -> (r: crate::envelope::Message<P>)
    requires
        cs@ == encoded_message::<P>(v),
    ensures
        r@ == v,
{
    let ghost l1 = "{\"src\":"@;
    let ghost q1 = quoted(v.src);
    let ghost l2 = ",\"dest\":"@;
    let ghost q2 = quoted(v.dst);
    let ghost l3 = ",\"body\":{"@;
    let ghost mp = msg_id_part(v.body.msg_id);
    let ghost ip = in_reply_to_part(v.body.in_reply_to);
    let ghost pl = P::encoded(v.body.payload);
    let ghost l4 = "}}"@;
    let _cs_len: usize = cs.len();
    proof {
        reveal_strlit("{\"src\":");
        reveal_strlit(",\"dest\":");
        reveal_strlit(",\"body\":{");
        reveal_strlit("\"msg_id\":");
        reveal_strlit("\"in_reply_to\":");
        reveal_strlit(",");
        reveal_strlit("}}");
        reveal_strlit("\"type\":\"");
        P::lemma_encoded_opens_with_type(v.body.payload);
        assert(l1.len() == 7);
        assert(l2.len() == 8);
        assert(l3.len() == 9);
        assert(l4.len() == 2);
        assert(cs@.len() == 7 + q1.len() + 8 + q2.len() + 9 + mp.len() + ip.len() + pl.len() + 2);
        assert(cs@.subrange(7, cs@.len() as int) =~= q1 + (l2 + q2 + l3 + mp + ip + pl + l4));
    }
    let (src_s, p1) = parse_string(cs, 7, Ghost(v.src), Ghost(l2 + q2 + l3 + mp + ip + pl + l4));
    let p2 = p1 + 8;
    proof {
        assert(cs@.subrange(p2 as int, cs@.len() as int) =~= q2 + (l3 + mp + ip + pl + l4));
    }
    let (dst_s, p3) = parse_string(cs, p2, Ghost(v.dst), Ghost(l3 + mp + ip + pl + l4));
    let p4 = p3 + 9;
    proof {
        assert(cs@.subrange(p4 as int, cs@.len() as int) =~= mp + ip + pl + l4);
        if v.body.msg_id is Some {
            assert((mp + ip + pl + l4)[1] == 'm');
        } else if v.body.in_reply_to is Some {
            assert(mp =~= Seq::<char>::empty());
            assert((mp + ip + pl + l4)[1] == 'i');
        } else {
            assert(mp =~= Seq::<char>::empty());
            assert(ip =~= Seq::<char>::empty());
            assert(pl[1] == pl.take(8)[1]);
            assert((mp + ip + pl + l4)[1] == 't');
        }
        assert(cs@[p4 as int + 1] == (mp + ip + pl + l4)[1]);
    }
    let c1 = cs[p4 + 1];
    let (msg_id, p6): (Option<usize>, usize) = if c1 == 'm' {
        proof {
            assert(v.body.msg_id is Some);
            assert(cs@.subrange(p4 as int + 9, cs@.len() as int) =~= digits(
                v.body.msg_id->0 as int,
            ) + (","@ + (ip + pl + l4)));
            assert(!is_digit(','));
        }
        let (n, p5) = parse_number(
            cs,
            p4 + 9,
            Ghost(v.body.msg_id->0 as int),
            Ghost(","@ + (ip + pl + l4)),
        );
        (Some(n), p5 + 1)
    } else {
        proof {
            assert(v.body.msg_id is None);
            assert(mp =~= Seq::<char>::empty());
        }
        (None, p4)
    };
    proof {
        assert(cs@.subrange(p6 as int, cs@.len() as int) =~= ip + pl + l4);
        if v.body.in_reply_to is Some {
            assert((ip + pl + l4)[1] == 'i');
        } else {
            assert(ip =~= Seq::<char>::empty());
            assert(pl[1] == pl.take(8)[1]);
            assert((ip + pl + l4)[1] == 't');
        }
        assert(cs@[p6 as int + 1] == (ip + pl + l4)[1]);
    }
    let c2 = cs[p6 + 1];
    let (in_reply_to, p7): (Option<usize>, usize) = if c2 == 'i' {
        proof {
            assert(v.body.in_reply_to is Some);
            assert(cs@.subrange(p6 as int + 14, cs@.len() as int) =~= digits(
                v.body.in_reply_to->0 as int,
            ) + (","@ + (pl + l4)));
            assert(!is_digit(','));
        }
        let (n, p) = parse_number(
            cs,
            p6 + 14,
            Ghost(v.body.in_reply_to->0 as int),
            Ghost(","@ + (pl + l4)),
        );
        (Some(n), p + 1)
    } else {
        proof {
            assert(v.body.in_reply_to is None);
            assert(ip =~= Seq::<char>::empty());
        }
        (None, p6)
    };
    proof {
        assert(cs@.subrange(p7 as int, cs@.len() as int) =~= pl + l4);
        assert(l4[0] == '}');
    }
    let (payload, _p8) = P::decode_from(cs, p7, Ghost(v.body.payload), Ghost(l4));
    let r = crate::envelope::Message {
        src: src_s,
        dst: dst_s,
        body: crate::envelope::Body { msg_id, in_reply_to, payload },
    };
    proof {
        assert(r@ =~= v);
    }
    r
}

/// Law: decoding an encoded envelope and re-encoding it preserves
/// every field — the envelope read back from the wire text is
/// structurally equivalent to the one that produced it.
pub fn recode_message<P: PayloadCodec>(m: &crate::envelope::Message<P>) -> (r: crate::envelope::Message<P>)
    ensures
        r@ == m@,
{
    let line = encode_message(m);
    decode_message(&line, Ghost(m@))
}


/// The wire text of a list of strings: quoted entries joined by
/// commas, without the surrounding brackets.
pub open spec fn strlist(l: Seq<Seq<char>>) -> Seq<char>
    decreases l.len(),
{
    if l.len() == 0 {
        Seq::empty()
    } else if l.len() == 1 {
        quoted(l[0])
    } else {
        quoted(l[0]) + ","@ + strlist(l.drop_first())
    }
}

/// Appends the entries of `v` from index `i` on, quoted and joined by
/// commas.
pub(crate) fn push_strlist(out: &mut Vec<char>, v: &Vec<String>, i: usize)
    requires
        i <= v@.len(),
    ensures
        final(out)@ == old(out)@ + strlist(v.deep_view().skip(i as int)),
    decreases v@.len() - i,
{
    proof {
        reveal_strlit(",");
    }
    if i < v.len() {
        push_quoted(out, v[i].as_str());
        proof {
            assert(v.deep_view().skip(i as int)[0] == v@[i as int]@);
        }
        if i + 1 < v.len() {
            push_lit(out, ",");
            push_strlist(out, v, i + 1);
            proof {
                assert(v.deep_view().skip(i as int).drop_first() =~= v.deep_view().skip(
                    i as int + 1,
                ));
                assert(v.deep_view().skip(i as int).len() > 1);
                assert(final(out)@ =~= old(out)@ + strlist(v.deep_view().skip(i as int)));
            }
        } else {
            proof {
                assert(v.deep_view().skip(i as int).len() == 1);
                assert(final(out)@ =~= old(out)@ + strlist(v.deep_view().skip(i as int)));
            }
        }
    } else {
        proof {
            assert(v.deep_view().skip(i as int) =~= Seq::<Seq<char>>::empty());
            assert(final(out)@ =~= old(out)@ + strlist(v.deep_view().skip(i as int)));
        }
    }
}

/// Reads back a comma-joined list of quoted strings written by
/// `push_strlist`, appending the entries to `acc`. The ghost arguments
/// name the list and what follows it, which begins with the closing
/// bracket.
#[verifier::rlimit(100)]
pub(crate) fn parse_strlist(
    cs: &Vec<char>,
    pos: usize,
    acc: &mut Vec<String>,
    Ghost(l): Ghost<Seq<Seq<char>>>,
    Ghost(rest): Ghost<Seq<char>>,
) -> (r: usize)
    requires
        pos <= cs@.len(),
        cs@.subrange(pos as int, cs@.len() as int) == strlist(l) + rest,
        rest.len() > 0,
        rest[0] == ']',
    ensures
        final(acc).deep_view() == old(acc).deep_view() + l,
        r == pos + strlist(l).len(),
    decreases l.len(),
{
    let ghost t = strlist(l) + rest;
    let _cs_len: usize = cs.len();
    proof {
        reveal_strlit(",");
        assert(cs@.len() - pos == t.len());
        assert forall|i: int| pos <= i < cs@.len() implies cs@[i] == t[i - pos] by {
            assert(cs@.subrange(pos as int, cs@.len() as int)[i - pos] == cs@[i]);
        }
        if l.len() > 0 {
            assert(strlist(l)[0] == quoted(l[0])[0]);
            assert(t[0] == '"');
        } else {
            assert(t[0] == ']');
        }
        assert(cs@[pos as int] == t[0]);
    }
    let c0 = cs[pos];
    if c0 == ']' {
        proof {
            assert(l.len() == 0);
            assert(final(acc).deep_view() =~= old(acc).deep_view() + l);
        }
        pos
    } else {
        proof {
            assert(l.len() > 0);
            if l.len() == 1 {
                assert(cs@.subrange(pos as int, cs@.len() as int) =~= quoted(l[0]) + rest);
            } else {
                assert(t =~= quoted(l[0]) + (","@ + (strlist(l.drop_first()) + rest)));
                assert(cs@.subrange(pos as int, cs@.len() as int) =~= quoted(l[0]) + (","@
                    + (strlist(l.drop_first()) + rest)));
            }
        }
        let (s0, p1) = parse_string(
            cs,
            pos,
            Ghost(l[0]),
            Ghost(
                if l.len() == 1 {
                    rest
                } else {
                    ","@ + (strlist(l.drop_first()) + rest)
                },
            ),
        );
        proof {
            if l.len() == 1 {
                assert(cs@[p1 as int] == t[p1 - pos]);
                assert(t[p1 - pos] == rest[0]);
            } else {
                assert(cs@[p1 as int] == t[p1 - pos]);
                assert(t =~= quoted(l[0]) + (","@ + (strlist(l.drop_first()) + rest)));
                assert(t[p1 - pos] == ',');
            }
        }
        let c1 = cs[p1];
        acc.push(s0);
        if c1 == ',' {
            proof {
                assert(l.len() > 1);
                assert(cs@.subrange(p1 as int + 1, cs@.len() as int) =~= strlist(l.drop_first())
                    + rest);
            }
            let r = parse_strlist(cs, p1 + 1, acc, Ghost(l.drop_first()), Ghost(rest));
            proof {
                assert(final(acc).deep_view() =~= old(acc).deep_view() + l);
            }
            r
        } else {
            proof {
                assert(l.len() == 1);
                assert(final(acc).deep_view() =~= old(acc).deep_view() + l);
            }
            p1
        }
    }
}

} // verus!
