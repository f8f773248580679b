//! The framer: a pure algorithm that turns one logical outbound message into
//! an ordered sequence of wire-ready lines.
//!
//! The protocol caps a wire line at 512 bytes including its mandatory
//! two-byte `"\r\n"` terminator, so a line carries at most 510 bytes of
//! content.  A message of at most 508 bytes (510 minus the terminator
//! budget), or one without a colon, becomes a single line: the message with
//! the terminator appended.  A longer message with a colon is split at its
//! *first* colon into a head (the bytes before it, trimmed) and a tail (the
//! bytes after it, trimmed).  The tail's bytes are partitioned into
//! consecutive chunks of `508 - head.len()` bytes (the last chunk may be
//! shorter), and each chunk that is itself valid UTF-8 becomes the line
//! `head :chunk\r\n`; a chunk whose boundary cuts a multi-byte character is
//! dropped.
//!
//! [`frame_bytes`] states that algorithm over byte sequences; [`split`] is
//! the executable form and returns exactly the stated lines.

use vstd::prelude::*;
use vstd::seq_lib::*;
use vstd::string::*;
use vstd::utf8::*;

verus! {

/// The two-byte line terminator `"\r\n"`.
pub open spec fn crlf() -> Seq<u8> {
    seq![13u8, 10u8]
}

/// The two bytes `" :"` that separate the head from a chunk of the trailing
/// parameter on a continuation line.
pub open spec fn head_sep() -> Seq<u8> {
    seq![32u8, 58u8]
}

/// The byte value of `':'`, which introduces the trailing parameter.
pub open spec fn colon_byte() -> u8 {
    58u8
}

/// True for the ASCII whitespace bytes that trimming removes: tab, line
/// feed, vertical tab, form feed, carriage return and space.
pub open spec fn is_space_byte(b: u8) -> bool {
    b == 32 || (9 <= b && b <= 13)
}

/// The sequence with its leading whitespace bytes removed.
pub open spec fn trim_front(s: Seq<u8>) -> Seq<u8>
    decreases s.len(),
{
    if s.len() > 0 && is_space_byte(s[0]) {
        trim_front(s.drop_first())
    } else {
        s
    }
}

/// The sequence with its trailing whitespace bytes removed.
pub open spec fn trim_back(s: Seq<u8>) -> Seq<u8>
    decreases s.len(),
{
    if s.len() > 0 && is_space_byte(s.last()) {
        trim_back(s.drop_last())
    } else {
        s
    }
}

/// The sequence with whitespace bytes removed from both ends.
pub open spec fn trim_bytes(s: Seq<u8>) -> Seq<u8> {
    trim_back(trim_front(s))
}

/// True when the sequence holds a colon byte.
pub open spec fn has_colon(s: Seq<u8>) -> bool {
    exists|i: int| 0 <= i < s.len() && s[i] == colon_byte()
}

/// The index of the first colon byte (the sequence's length when it holds
/// none).
pub open spec fn first_colon(s: Seq<u8>) -> int
    decreases s.len(),
{
    if s.len() == 0 {
        0
    } else if s[0] == colon_byte() {
        0
    } else {
        1 + first_colon(s.drop_first())
    }
}

/// The sequence partitioned into consecutive chunks of `k` bytes; the last
/// chunk may be shorter, and an empty sequence has no chunks.
pub open spec fn chunks_of(s: Seq<u8>, k: int) -> Seq<Seq<u8>>
    recommends
        k >= 1,
    decreases s.len(),
        when k >= 1
{
    if s.len() == 0 {
        seq![]
    } else if s.len() <= k {
        seq![s]
    } else {
        seq![s.take(k)] + chunks_of(s.skip(k), k)
    }
}

/// One wire line carrying a chunk of the trailing parameter:
/// `head :chunk\r\n`.
pub open spec fn line_of(head: Seq<u8>, chunk: Seq<u8>) -> Seq<u8> {
    head + head_sep() + chunk + crlf()
}

/// The head of a split message: the bytes before the first colon, trimmed.
pub open spec fn split_head(msg: Seq<u8>) -> Seq<u8> {
    trim_bytes(msg.take(first_colon(msg)))
}

/// The tail of a split message: the bytes after the first colon, trimmed.
pub open spec fn split_tail(msg: Seq<u8>) -> Seq<u8> {
    trim_bytes(msg.skip(first_colon(msg) + 1))
}

/// How many tail bytes fit on one line beside this head: 510 bytes of
/// content, minus the head, minus the two separator bytes `" :"`.
pub open spec fn chunk_budget(head: Seq<u8>) -> int {
    508 - head.len()
}

/// The lines made from a tail beside a head with a chunk size of `k`: one
/// line per chunk that is valid UTF-8, in tail order.
pub open spec fn lines_from_chunks(head: Seq<u8>, tail: Seq<u8>, k: int) -> Seq<Seq<u8>> {
    chunks_of(tail, k).filter(|c: Seq<u8>| valid_utf8(c)).map_values(
        |c: Seq<u8>| line_of(head, c),
    )
}

/// True when the message is framed as one line: it fits within 508 bytes,
/// holds no colon, or its trimmed head is so long that no tail byte could
/// join it within the limit (such a message cannot be split legally, so it
/// too is sent whole).
pub open spec fn takes_single_line(msg: Seq<u8>) -> bool {
    ||| msg.len() <= 508
    ||| !has_colon(msg)
    ||| chunk_budget(split_head(msg)) < 1
}

/// The wire lines for one outbound message, as byte sequences.
pub open spec fn frame_bytes(msg: Seq<u8>) -> Seq<Seq<u8>> {
    if takes_single_line(msg) {
        seq![msg + crlf()]
    } else {
        lines_from_chunks(split_head(msg), split_tail(msg), chunk_budget(split_head(msg)))
    }
}

/// An index below which no colon occurs, and at which one stands, is the
/// first colon.
proof fn lemma_first_colon_at(s: Seq<u8>, i: int)
    requires
        0 <= i < s.len(),
        s[i] == colon_byte(),
        forall|j: int| 0 <= j < i ==> s[j] != colon_byte(),
    ensures
        first_colon(s) == i,
        has_colon(s),
    decreases i,
{
    if i > 0 {
        lemma_first_colon_at(s.drop_first(), i - 1);
    }
}

/// True for the whitespace bytes that trimming removes.
fn is_space(b: u8) -> (r: bool)
    ensures
        r == is_space_byte(b),
{
    b == 32 || (9 <= b && b <= 13)
}

/// The index of the first colon byte, if any.
fn find_colon(bytes: &[u8]) -> (r: Option<usize>)
    ensures
        match r {
            Some(i) => i < bytes@.len() && bytes@[i as int] == colon_byte() && first_colon(
                bytes@,
            ) == i as int && has_colon(bytes@),
            None => !has_colon(bytes@),
        },
{
    let n = bytes.len();
    let mut i: usize = 0;
    while i < n
        invariant
            i <= n,
            n == bytes@.len(),
            forall|j: int| 0 <= j < i ==> bytes@[j] != colon_byte(),
        decreases n - i,
    {
        if bytes[i] == 58 {
            proof {
                lemma_first_colon_at(bytes@, i as int);
            }
            return Some(i);
        }
        i = i + 1;
    }
    None
}

/// Every position within a run of ASCII bytes that starts the sequence is a
/// character boundary.
proof fn lemma_ascii_run_boundary(s: Seq<u8>, a: int)
    requires
        valid_utf8(s),
        0 <= a <= s.len(),
        forall|j: int| 0 <= j < a ==> s[j] < 0x80,
    ensures
        is_char_boundary(s, a),
    decreases a,
{
    if a > 0 {
        assert(valid_first_scalar(s));
        assert(is_leading_byte_width_1(s[0]));
        assert(length_of_first_scalar(s) == 1);
        let t = pop_first_scalar(s);
        assert(t =~= s.drop_first());
        lemma_ascii_run_boundary(t, a - 1);
    }
}

/// Within a valid sequence, boundaries of a suffix that starts at a
/// boundary are the boundaries of the whole, shifted.
proof fn lemma_boundary_shift(s: Seq<u8>, p: int, q: int)
    requires
        valid_utf8(s),
        is_char_boundary(s, p),
        0 <= p <= q <= s.len(),
    ensures
        is_char_boundary(s, q) <==> is_char_boundary(s.skip(p), q - p),
{
    valid_utf8_split(s, p);
    let w = s.subrange(p, s.len() as int);
    assert(w =~= s.skip(p));
    if q == s.len() {
        is_char_boundary_start_end_of_seq(s);
        is_char_boundary_start_end_of_seq(w);
    } else {
        is_char_boundary_iff_not_is_continuation_byte(s, q);
        is_char_boundary_iff_not_is_continuation_byte(w, q - p);
        assert(w[q - p] == s[q]);
    }
}

/// The position just after an ASCII byte that starts a character is itself
/// a character boundary.
proof fn lemma_boundary_after_ascii(s: Seq<u8>, i: int)
    requires
        valid_utf8(s),
        0 <= i < s.len(),
        s[i] < 0x80,
        is_char_boundary(s, i),
    ensures
        is_char_boundary(s, i + 1),
{
    valid_utf8_split(s, i);
    let w = s.subrange(i, s.len() as int);
    assert(w.len() > 0);
    assert(valid_first_scalar(w));
    assert(w[0] == s[i]);
    assert(is_leading_byte_width_1(w[0]));
    assert(length_of_first_scalar(w) == 1);
    if i + 1 < s.len() {
        let w1 = pop_first_scalar(w);
        assert(valid_utf8(w1));
        assert(w1 =~= s.subrange(i + 1, s.len() as int));
        assert(w1.len() > 0);
        assert(valid_first_scalar(w1));
        assert(!is_continuation_byte(w1[0]));
        assert(w1[0] == s[i + 1]);
        is_char_boundary_iff_not_is_continuation_byte(s, i + 1);
    } else {
        is_char_boundary_start_end_of_seq(s);
    }
}

/// A nonempty slice of a valid sequence is itself valid UTF-8 exactly when
/// both of its ends fall on character boundaries.
proof fn lemma_slice_valid_iff_boundaries(s: Seq<u8>, p: int, q: int)
    requires
        valid_utf8(s),
        0 <= p < q <= s.len(),
    ensures
        valid_utf8(s.subrange(p, q)) <==> (is_char_boundary(s, p) && is_char_boundary(s, q)),
{
    let c = s.subrange(p, q);
    if is_char_boundary(s, p) {
        valid_utf8_split(s, p);
        let w = s.subrange(p, s.len() as int);
        assert(w =~= s.skip(p));
        lemma_boundary_shift(s, p, q);
        if is_char_boundary(s, q) {
            valid_utf8_split(w, q - p);
            assert(c =~= w.subrange(0, q - p));
        }
        if valid_utf8(c) {
            // The rest of the suffix after the chunk is valid too, so the
            // byte at `q`, if any, leads a scalar and is no continuation.
            assert(c =~= w.subrange(0, q - p));
            if !valid_utf8(w.subrange(q - p, w.len() as int)) {
                partial_valid_partial_invalid_utf8(w, q - p);
                assert(false);
            }
            if q < s.len() {
                let rest = w.subrange(q - p, w.len() as int);
                assert(valid_first_scalar(rest));
                assert(rest[0] == s[q]);
                assert(!is_continuation_byte(s[q]));
                is_char_boundary_iff_not_is_continuation_byte(s, q);
            } else {
                is_char_boundary_start_end_of_seq(s);
            }
        }
    } else {
        // The chunk starts with a continuation byte, so it cannot be valid.
        is_char_boundary_iff_not_is_continuation_byte(s, p);
        assert(is_continuation_byte(s[p]));
        if valid_utf8(c) {
            assert(c.len() > 0);
            assert(valid_first_scalar(c));
            assert(c[0] == s[p]);
            assert(false);
        }
    }
}

/// Characterizes [`trim_front`] by the index of the first non-whitespace
/// byte.
proof fn lemma_trim_front_at(s: Seq<u8>, a: int)
    requires
        0 <= a <= s.len(),
        forall|j: int| 0 <= j < a ==> is_space_byte(s[j]),
        a < s.len() ==> !is_space_byte(s[a]),
    ensures
        trim_front(s) == s.skip(a),
    decreases a,
{
    if a == 0 {
        assert(s.skip(0) =~= s);
    } else {
        lemma_trim_front_at(s.drop_first(), a - 1);
        assert(s.drop_first().skip(a - 1) =~= s.skip(a));
    }
}

/// Characterizes [`trim_back`] by the index just past the last
/// non-whitespace byte.
proof fn lemma_trim_back_at(s: Seq<u8>, e: int)
    requires
        0 <= e <= s.len(),
        forall|j: int| e <= j < s.len() ==> is_space_byte(s[j]),
        e > 0 ==> !is_space_byte(s[e - 1]),
    ensures
        trim_back(s) == s.take(e),
    decreases s.len(),
{
    if e == s.len() {
        if s.len() > 0 {
            assert(!is_space_byte(s.last()));
        }
        assert(s.take(e) =~= s);
    } else {
        assert(is_space_byte(s.last()));
        lemma_trim_back_at(s.drop_last(), e);
        assert(s.drop_last().take(e) =~= s.take(e));
    }
}

/// Removes leading and trailing ASCII whitespace from a string slice.
pub fn trim(s: &str) -> (r: &str)
    ensures
        r.spec_bytes() == trim_bytes(s.spec_bytes()),
{
    proof {
        encode_utf8_valid_utf8(s@);
    }
    let bytes = s.as_bytes();
    let n = bytes.len();
    let mut a: usize = 0;
    while a < n && is_space(bytes[a])
        invariant
            a <= n,
            n == s.spec_bytes().len(),
            bytes@ == s.spec_bytes(),
            forall|j: int| 0 <= j < a ==> is_space_byte(bytes@[j]),
        decreases n - a,
    {
        a = a + 1;
    }
    let mut e: usize = n;
    while e > a && is_space(bytes[e - 1])
        invariant
            a <= e <= n,
            n == s.spec_bytes().len(),
            bytes@ == s.spec_bytes(),
            forall|j: int| 0 <= j < a ==> is_space_byte(bytes@[j]),
            forall|j: int| e <= j < n ==> is_space_byte(bytes@[j]),
        decreases e,
    {
        e = e - 1;
    }
    proof {
        let sb = s.spec_bytes();
        assert forall|j: int| 0 <= j < a implies sb[j] < 0x80 by {
            assert(is_space_byte(sb[j]));
        }
        lemma_ascii_run_boundary(sb, a as int);
    }
    let (_, suffix) = s.split_at(a);
    proof {
        let sb = s.spec_bytes();
        let wb = suffix.spec_bytes();
        assert(wb =~= sb.skip(a as int));
        encode_utf8_valid_utf8(suffix@);
        if e > a {
            // The byte at the cut is whitespace when inside the string, so
            // it is ASCII and starts a character.
            if (e as int) < sb.len() {
                is_char_boundary_iff_not_is_continuation_byte(wb, e - a as int);
                assert(wb[e - a as int] == sb[e as int]);
                assert(is_space_byte(sb[e as int]));
            } else {
                is_char_boundary_start_end_of_seq(wb);
            }
        } else {
            is_char_boundary_start_end_of_seq(wb);
        }
        assert(is_char_boundary(wb, e - a as int));
    }
    let (mid, _) = suffix.split_at(e - a);
    proof {
        let sb = s.spec_bytes();
        let wb = suffix.spec_bytes();
        assert(mid.spec_bytes() =~= sb.subrange(a as int, e as int));
        lemma_trim_front_at(sb, a as int);
        lemma_trim_back_at(sb.skip(a as int), e - a as int);
        assert(sb.skip(a as int).take(e - a as int) =~= sb.subrange(a as int, e as int));
    }
    mid
}

/// UTF-8 encoding distributes over concatenation of character sequences.
proof fn lemma_encode_utf8_concat(a: Seq<char>, b: Seq<char>)
    ensures
        encode_utf8(a + b) == encode_utf8(a) + encode_utf8(b),
    decreases a.len(),
{
    if a.len() == 0 {
        assert(a + b =~= b);
        assert(encode_utf8(a) =~= Seq::<u8>::empty());
        assert(encode_utf8(a) + encode_utf8(b) =~= encode_utf8(b));
    } else {
        assert((a + b).len() > 0);
        assert((a + b)[0] == a[0]);
        assert((a + b).drop_first() =~= a.drop_first() + b);
        lemma_encode_utf8_concat(a.drop_first(), b);
        let e0 = encode_scalar(a[0] as u32);
        assert(encode_utf8(a + b) == e0 + encode_utf8((a + b).drop_first()));
        assert(encode_utf8(a) == e0 + encode_utf8(a.drop_first()));
        assert(e0 + (encode_utf8(a.drop_first()) + encode_utf8(b)) =~= (e0 + encode_utf8(
            a.drop_first(),
        )) + encode_utf8(b));
    }
}

/// The byte encodings of the separator and terminator literals.
proof fn lemma_sep_crlf_bytes()
    ensures
        encode_utf8(" :"@) == head_sep(),
        encode_utf8("\r\n"@) == crlf(),
{
    reveal_strlit(" :");
    reveal_strlit("\r\n");
    assert(is_ascii_chars(" :"@)) by {
        assert(" :"@[0] == ' ');
        assert(" :"@[1] == ':');
    }
    assert(is_ascii_chars("\r\n"@)) by {
        assert("\r\n"@[0] == '\r');
        assert("\r\n"@[1] == '\n');
    }
    is_ascii_chars_encode_utf8(" :"@);
    is_ascii_chars_encode_utf8("\r\n"@);
    assert(encode_utf8(" :"@) =~= head_sep());
    assert(encode_utf8("\r\n"@) =~= crlf());
}

/// The byte encodings of a sequence of line strings.
pub open spec fn lines_bytes(lines: Seq<String>) -> Seq<Seq<u8>> {
    lines.map_values(|s: String| encode_utf8(s@))
}

/// Builds one wire line carrying a chunk of the trailing parameter.
fn build_line(head: &str, chunk: &str) -> (r: String)
    ensures
        encode_utf8(r@) == line_of(head.spec_bytes(), chunk.spec_bytes()),
{
    let mut line = head.to_owned();
    line.append(" :");
    line.append(chunk);
    line.append("\r\n");
    proof {
        lemma_sep_crlf_bytes();
        lemma_encode_utf8_concat(head@, " :"@);
        lemma_encode_utf8_concat(head@ + " :"@, chunk@);
        lemma_encode_utf8_concat(head@ + " :"@ + chunk@, "\r\n"@);
        assert(encode_utf8(line@) =~= line_of(head.spec_bytes(), chunk.spec_bytes()));
    }
    line
}

/// Appends the terminator to the whole message: the single-line frame.
fn single_line(raw: &str) -> (res: Vec<String>)
    ensures
        lines_bytes(res@) == seq![raw.spec_bytes() + crlf()],
{
    let mut line = raw.to_owned();
    line.append("\r\n");
    let mut res: Vec<String> = Vec::new();
    res.push(line);
    proof {
        lemma_sep_crlf_bytes();
        lemma_encode_utf8_concat(raw@, "\r\n"@);
        assert(lines_bytes(res@) =~= seq![raw.spec_bytes() + crlf()]);
    }
    res
}

/// The first chunk that partitioning `t` into `k`-byte pieces yields.
spec fn first_chunk(t: Seq<u8>, k: int) -> Seq<u8> {
    if t.len() <= k {
        t
    } else {
        t.take(k)
    }
}

/// What remains of `t` after its first `k`-byte chunk.
spec fn rest_after_chunk(t: Seq<u8>, k: int) -> Seq<u8> {
    if t.len() <= k {
        Seq::<u8>::empty()
    } else {
        t.skip(k)
    }
}

/// An empty tail frames to no lines.
proof fn lemma_lines_empty(head: Seq<u8>, k: int)
    requires
        k >= 1,
    ensures
        lines_from_chunks(head, Seq::<u8>::empty(), k) == Seq::<Seq<u8>>::empty(),
{
    let pred = |c: Seq<u8>| valid_utf8(c);
    reveal_with_fuel(Seq::<_>::filter, 2);
    assert(chunks_of(Seq::<u8>::empty(), k) =~= Seq::<Seq<u8>>::empty());
    assert(lines_from_chunks(head, Seq::<u8>::empty(), k) =~= Seq::<Seq<u8>>::empty());
}

/// Framing a nonempty tail yields its first chunk's line — when that chunk
/// is valid UTF-8 — followed by the framing of the rest.
proof fn lemma_lines_step(head: Seq<u8>, tail: Seq<u8>, k: int)
    requires
        k >= 1,
        tail.len() > 0,
    ensures
        lines_from_chunks(head, tail, k) == (if valid_utf8(first_chunk(tail, k)) {
            seq![line_of(head, first_chunk(tail, k))]
        } else {
            Seq::<Seq<u8>>::empty()
        }) + lines_from_chunks(head, rest_after_chunk(tail, k), k),
{
    let pred = |c: Seq<u8>| valid_utf8(c);
    let f = |c: Seq<u8>| line_of(head, c);
    let c0 = first_chunk(tail, k);
    let rest = rest_after_chunk(tail, k);
    assert(chunks_of(tail, k) == seq![c0] + chunks_of(rest, k)) by {
        if tail.len() <= k {
            assert(chunks_of(rest, k) =~= Seq::<Seq<u8>>::empty());
            assert(seq![c0] + chunks_of(rest, k) =~= seq![tail]);
        } else {
            assert(seq![c0] + chunks_of(rest, k) =~= chunks_of(tail, k));
        }
    }
    Seq::filter_distributes_over_add(seq![c0], chunks_of(rest, k), pred);
    assert(seq![c0].filter(pred) == if pred(c0) {
        seq![c0]
    } else {
        Seq::<Seq<u8>>::empty()
    }) by {
        reveal_with_fuel(Seq::<_>::filter, 2);
        assert(seq![c0].drop_last() =~= Seq::<Seq<u8>>::empty());
        assert(seq![c0].last() == c0);
        if pred(c0) {
            assert(seq![c0].filter(pred) =~= seq![c0]);
        } else {
            assert(seq![c0].filter(pred) =~= Seq::<Seq<u8>>::empty());
        }
    }
    let left = seq![c0].filter(pred);
    let right = chunks_of(rest, k).filter(pred);
    assert((left + right).map_values(f) =~= left.map_values(f) + right.map_values(f));
    assert(left.map_values(f) == if pred(c0) {
        seq![f(c0)]
    } else {
        Seq::<Seq<u8>>::empty()
    }) by {
        if pred(c0) {
            assert(left.map_values(f) =~= seq![f(c0)]);
        } else {
            assert(left.map_values(f) =~= Seq::<Seq<u8>>::empty());
        }
    }
}

/// When a message holds a colon, the first-colon index lies within it,
/// points at a colon, and nothing before it is one.
pub proof fn lemma_first_colon_props(s: Seq<u8>)
    requires
        has_colon(s),
    ensures
        0 <= first_colon(s) < s.len(),
        s[first_colon(s)] == colon_byte(),
        forall|j: int| 0 <= j < first_colon(s) ==> s[j] != colon_byte(),
    decreases s.len(),
{
    if s.len() > 0 && s[0] != colon_byte() {
        assert(has_colon(s.drop_first())) by {
            let w = choose|i: int| 0 <= i < s.len() && s[i] == colon_byte();
            assert(s.drop_first()[w - 1] == s[w]);
        }
        lemma_first_colon_props(s.drop_first());
        assert forall|j: int| 0 <= j < first_colon(s) implies s[j] != colon_byte() by {
            if j > 0 {
                assert(s.drop_first()[j - 1] == s[j]);
            }
        }
    }
}

/// Trimming preserves a leading run of non-whitespace bytes.
proof fn lemma_trim_back_keeps_prefix(s: Seq<u8>, p: int)
    requires
        0 <= p <= s.len(),
        forall|j: int| 0 <= j < p ==> !is_space_byte(s[j]),
    ensures
        trim_back(s).len() >= p,
        forall|j: int| 0 <= j < p ==> trim_back(s)[j] == s[j],
    decreases s.len(),
{
    if s.len() > 0 && is_space_byte(s.last()) {
        assert(s.len() - 1 >= p);
        lemma_trim_back_keeps_prefix(s.drop_last(), p);
        assert(trim_back(s) == trim_back(s.drop_last()));
        assert(forall|j: int| 0 <= j < p ==> s.drop_last()[j] == s[j]);
    } else {
        assert(trim_back(s) == s);
    }
}

/// Trimming preserves a leading run of non-whitespace bytes.
pub proof fn lemma_trim_keeps_prefix(s: Seq<u8>, p: int)
    requires
        0 <= p <= s.len(),
        forall|j: int| 0 <= j < p ==> !is_space_byte(s[j]),
    ensures
        trim_bytes(s).len() >= p,
        forall|j: int| 0 <= j < p ==> trim_bytes(s)[j] == s[j],
{
    if p > 0 {
        assert(trim_front(s) == s);
        lemma_trim_back_keeps_prefix(s, p);
    }
}

/// A message of at most 508 bytes, or one without a colon, frames to
/// exactly one line: the message itself with the terminator appended.
pub proof fn lemma_frame_single_line(msg: Seq<u8>)
    requires
        msg.len() <= 508 || !has_colon(msg),
    ensures
        frame_bytes(msg) == seq![msg + crlf()],
{
}

/// A message that takes the single-line form frames to exactly one line —
/// never to none; in particular the empty message frames to one line
/// holding only the terminator.
pub proof fn lemma_frame_nonempty(msg: Seq<u8>)
    requires
        takes_single_line(msg),
    ensures
        frame_bytes(msg).len() == 1,
        msg.len() == 0 ==> frame_bytes(msg) == seq![crlf()],
{
    if msg.len() == 0 {
        assert(msg + crlf() =~= crlf());
    }
}

/// The first colon, not a later one, determines the head/tail split: a
/// colon with no colon before it fixes the head as the trimmed bytes
/// before it and the tail as the trimmed bytes after it.
pub proof fn lemma_split_at_first_colon(msg: Seq<u8>, i: int)
    requires
        0 <= i < msg.len(),
        msg[i] == colon_byte(),
        forall|j: int| 0 <= j < i ==> msg[j] != colon_byte(),
    ensures
        split_head(msg) == trim_bytes(msg.take(i)),
        split_tail(msg) == trim_bytes(msg.skip(i + 1)),
{
    lemma_first_colon_at(msg, i);
}

/// Every chunk the partition yields holds between 1 and `k` bytes.
proof fn lemma_chunks_len(t: Seq<u8>, k: int)
    requires
        k >= 1,
    ensures
        forall|j: int|
            0 <= j < chunks_of(t, k).len() ==> 1 <= (#[trigger] chunks_of(t, k)[j]).len() <= k,
    decreases t.len(),
{
    if t.len() > k {
        lemma_chunks_len(t.skip(k), k);
        assert forall|j: int|
            0 <= j < chunks_of(t, k).len() implies 1 <= (#[trigger] chunks_of(t, k)[j]).len()
            <= k by {
            if j > 0 {
                assert(chunks_of(t, k)[j] == chunks_of(t.skip(k), k)[j - 1]);
            }
        }
    }
}

/// Every element of a filtered sequence occurs in the original.
pub(crate) proof fn lemma_filter_elem_of(s: Seq<Seq<u8>>, pred: spec_fn(Seq<u8>) -> bool, j: int)
    requires
        0 <= j < s.filter(pred).len(),
    ensures
        exists|i: int| 0 <= i < s.len() && s[i] == s.filter(pred)[j],
    decreases s.len(),
{
    reveal_with_fuel(Seq::<_>::filter, 2);
    if s.len() > 0 {
        let fs = s.filter(pred);
        let fd = s.drop_last().filter(pred);
        if pred(s.last()) && j == fd.len() {
            assert(fs[j] == s.last());
            assert(s[s.len() - 1] == fs[j]);
        } else {
            assert(fs[j] == fd[j]);
            lemma_filter_elem_of(s.drop_last(), pred, j);
            let i = choose|i: int| 0 <= i < s.drop_last().len() && s.drop_last()[i] == fd[j];
            assert(s[i] == fs[j]);
        }
    }
}

/// A filter that keeps every element returns the sequence unchanged.
pub(crate) proof fn lemma_filter_all(s: Seq<Seq<u8>>, pred: spec_fn(Seq<u8>) -> bool)
    requires
        forall|j: int| 0 <= j < s.len() ==> pred(#[trigger] s[j]),
    ensures
        s.filter(pred) == s,
    decreases s.len(),
{
    reveal_with_fuel(Seq::<_>::filter, 2);
    if s.len() > 0 {
        lemma_filter_all(s.drop_last(), pred);
        assert(pred(s.last()));
        assert(s.drop_last().filter(pred).push(s.last()) =~= s);
    }
}

/// A filter that keeps no element returns the empty sequence.
pub(crate) proof fn lemma_filter_none(s: Seq<Seq<u8>>, pred: spec_fn(Seq<u8>) -> bool)
    requires
        forall|j: int| 0 <= j < s.len() ==> !pred(#[trigger] s[j]),
    ensures
        s.filter(pred) == Seq::<Seq<u8>>::empty(),
    decreases s.len(),
{
    reveal_with_fuel(Seq::<_>::filter, 2);
    if s.len() > 0 {
        lemma_filter_none(s.drop_last(), pred);
    }
}

/// The chunks of the partition concatenate back to the whole sequence.
proof fn lemma_chunks_flatten(t: Seq<u8>, k: int)
    requires
        k >= 1,
    ensures
        chunks_of(t, k).flatten() == t,
    decreases t.len(),
{
    if t.len() == 0 {
        assert(chunks_of(t, k).flatten() =~= t);
    } else if t.len() <= k {
        let chunks = chunks_of(t, k);
        assert(chunks == seq![t]);
        assert(chunks.first() == t);
        assert(chunks.drop_first() =~= Seq::<Seq<u8>>::empty());
        assert(chunks.flatten() == t + Seq::<Seq<u8>>::empty().flatten());
        assert(chunks.flatten() =~= t);
    } else {
        lemma_chunks_flatten(t.skip(k), k);
        let chunks = chunks_of(t, k);
        assert(chunks.first() == t.take(k));
        assert(chunks.drop_first() =~= chunks_of(t.skip(k), k));
        assert(chunks.flatten() == t.take(k) + chunks_of(t.skip(k), k).flatten());
        assert(t.take(k) + t.skip(k) =~= t);
    }
}

/// For a message long enough to split, with a colon and a head within
/// budget: every framed line is at most 512 bytes including its
/// terminator, begins with the trimmed head followed by `" :"`, and ends
/// with the terminator.
pub proof fn lemma_frame_split_lines(msg: Seq<u8>)
    requires
        !takes_single_line(msg),
    ensures
        forall|j: int|
            0 <= j < frame_bytes(msg).len() ==> {
                let l = #[trigger] frame_bytes(msg)[j];
                &&& split_head(msg).len() + 4 <= l.len() <= 512
                &&& l.take(split_head(msg).len() + 2 as int) == split_head(msg) + head_sep()
                &&& l.skip(l.len() - 2) == crlf()
            },
{
    let head = split_head(msg);
    let tail = split_tail(msg);
    let k = chunk_budget(head);
    let pred = |c: Seq<u8>| valid_utf8(c);
    let chunks = chunks_of(tail, k);
    let filtered = chunks.filter(pred);
    lemma_chunks_len(tail, k);
    assert forall|j: int| 0 <= j < frame_bytes(msg).len() implies {
        let l = #[trigger] frame_bytes(msg)[j];
        &&& head.len() + 4 <= l.len() <= 512
        &&& l.take(head.len() + 2 as int) == head + head_sep()
        &&& l.skip(l.len() - 2) == crlf()
    } by {
        let l = frame_bytes(msg)[j];
        assert(l == line_of(head, filtered[j]));
        lemma_filter_elem_of(chunks, pred, j);
        let i = choose|i: int| 0 <= i < chunks.len() && chunks[i] == filtered[j];
        assert(1 <= chunks[i].len() <= k);
        let c = filtered[j];
        assert(l.len() == head.len() + 2 + c.len() + 2);
        assert(l.take(head.len() + 2 as int) =~= head + head_sep());
        assert(l.skip(l.len() - 2) =~= crlf());
    }
}

/// When every chunk boundary of the tail falls on a character boundary, no
/// chunk is dropped: there is one line per chunk, the lines carry the
/// chunks in order, and the chunks concatenate back to the trimmed tail.
pub proof fn lemma_frame_reconstruct(msg: Seq<u8>)
    requires
        !takes_single_line(msg),
        forall|j: int|
            0 <= j < chunks_of(split_tail(msg), chunk_budget(split_head(msg))).len()
                ==> valid_utf8(
                #[trigger] chunks_of(split_tail(msg), chunk_budget(split_head(msg)))[j],
            ),
    ensures
        frame_bytes(msg).len() == chunks_of(split_tail(msg), chunk_budget(split_head(msg))).len(),
        forall|j: int|
            0 <= j < frame_bytes(msg).len() ==> #[trigger] frame_bytes(msg)[j] == line_of(
                split_head(msg),
                chunks_of(split_tail(msg), chunk_budget(split_head(msg)))[j],
            ),
        chunks_of(split_tail(msg), chunk_budget(split_head(msg))).flatten() == split_tail(msg),
        split_tail(msg).len() > 0 ==> frame_bytes(msg).len() >= 1,
{
    let tail = split_tail(msg);
    let k = chunk_budget(split_head(msg));
    let chunks = chunks_of(tail, k);
    lemma_filter_all(chunks, |c: Seq<u8>| valid_utf8(c));
    lemma_chunks_flatten(tail, k);
}

/// A sequence of ASCII bytes is valid UTF-8.
proof fn lemma_ascii_bytes_valid(s: Seq<u8>)
    requires
        forall|j: int| 0 <= j < s.len() ==> s[j] < 0x80,
    ensures
        valid_utf8(s),
    decreases s.len(),
{
    if s.len() > 0 {
        let b0 = s[0];
        assert(is_leading_byte_width_1(b0));
        assert(length_of_first_codepoint(s) == 1);
        assert((b0 & 0x7f) <= 0x7f) by (bit_vector);
        assert(valid_first_scalar(s));
        let rest = pop_first_scalar(s);
        assert(rest =~= s.drop_first());
        lemma_ascii_bytes_valid(rest);
    }
}

/// Partitioning an all-ASCII sequence yields only valid UTF-8 chunks.
proof fn lemma_chunks_all_valid_when_ascii(t: Seq<u8>, k: int)
    requires
        k >= 1,
        forall|j: int| 0 <= j < t.len() ==> t[j] < 0x80,
    ensures
        forall|j: int|
            0 <= j < chunks_of(t, k).len() ==> valid_utf8(#[trigger] chunks_of(t, k)[j]),
    decreases t.len(),
{
    if t.len() == 0 {
    } else if t.len() <= k {
        lemma_ascii_bytes_valid(t);
    } else {
        lemma_ascii_bytes_valid(t.take(k));
        lemma_chunks_all_valid_when_ascii(t.skip(k), k);
        assert forall|j: int|
            0 <= j < chunks_of(t, k).len() implies valid_utf8(#[trigger] chunks_of(t, k)[j]) by {
            if j == 0 {
                assert(chunks_of(t, k)[0] == t.take(k));
            } else {
                assert(chunks_of(t, k)[j] == chunks_of(t.skip(k), k)[j - 1]);
            }
        }
    }
}

/// An all-ASCII trailing parameter never cuts a character, so no chunk is
/// dropped: the framed lines carry every chunk and reconstruct the trimmed
/// tail exactly.
pub proof fn lemma_frame_reconstruct_ascii(msg: Seq<u8>)
    requires
        !takes_single_line(msg),
        forall|j: int| 0 <= j < split_tail(msg).len() ==> split_tail(msg)[j] < 0x80,
    ensures
        frame_bytes(msg).len() == chunks_of(split_tail(msg), chunk_budget(split_head(msg))).len(),
        forall|j: int|
            0 <= j < frame_bytes(msg).len() ==> #[trigger] frame_bytes(msg)[j] == line_of(
                split_head(msg),
                chunks_of(split_tail(msg), chunk_budget(split_head(msg)))[j],
            ),
        chunks_of(split_tail(msg), chunk_budget(split_head(msg))).flatten() == split_tail(msg),
        split_tail(msg).len() > 0 ==> frame_bytes(msg).len() >= 1,
{
    lemma_chunks_all_valid_when_ascii(split_tail(msg), chunk_budget(split_head(msg)));
    lemma_frame_reconstruct(msg);
}

/// Splits one outbound message into wire-ready lines: the returned strings'
/// byte encodings are exactly [`frame_bytes`] of the message's bytes.
///
/// A message of at most 508 bytes, or one without a colon, becomes the
/// single line `message\r\n`, whatever its length.  A longer message with a
/// colon has its trailing parameter fragmented over as many lines as
/// needed, each at most 512 bytes including the terminator; a chunk whose
/// boundary cuts a multi-byte character is dropped.  A message whose
/// trimmed head is 508 bytes or longer leaves no room for any tail byte, so
/// it cannot be split legally and is framed whole, like a message without a
/// colon.
pub fn split(raw: &str) -> (res: Vec<String>)
    ensures
        lines_bytes(res@) == frame_bytes(raw.spec_bytes()),
{
    proof {
        encode_utf8_valid_utf8(raw@);
    }
    let ghost b = raw.spec_bytes();
    let bytes = raw.as_bytes();
    let n = bytes.len();
    let colon = find_colon(bytes);
    if n <= 508 || colon.is_none() {
        proof {
            assert(takes_single_line(b));
        }
        return single_line(raw);
    }
    let i = colon.unwrap();
    proof {
        is_char_boundary_iff_not_is_continuation_byte(b, i as int);
        assert(!is_continuation_byte(b[i as int]));
    }
    let (head_part, _) = raw.split_at(i);
    proof {
        lemma_boundary_after_ascii(b, i as int);
    }
    let (_, tail_part) = raw.split_at(i + 1);
    let head = trim(head_part);
    let tail = trim(tail_part);
    let ghost hb = head.spec_bytes();
    let ghost tb = tail.spec_bytes();
    proof {
        assert(head_part.spec_bytes() =~= b.take(i as int));
        assert(tail_part.spec_bytes() =~= b.skip(i as int + 1));
        assert(hb == split_head(b));
        assert(tb == split_tail(b));
        encode_utf8_valid_utf8(head@);
        encode_utf8_valid_utf8(tail@);
    }
    let head_len = head.as_bytes().len();
    if head_len >= 508 {
        proof {
            assert(chunk_budget(hb) < 1);
            assert(takes_single_line(b));
        }
        return single_line(raw);
    }
    let k = 508 - head_len;
    let tail_bytes = tail.as_bytes();
    let m = tail_bytes.len();
    let mut res: Vec<String> = Vec::new();
    let mut pos: usize = 0;
    proof {
        lemma_lines_empty(hb, k as int);
        assert(tb.skip(0) =~= tb);
        assert(lines_bytes(res@) =~= Seq::<Seq<u8>>::empty());
    }
    while pos < m
        invariant
            pos <= m,
            m == tb.len(),
            hb == head.spec_bytes(),
            tb == tail.spec_bytes(),
            valid_utf8(tb),
            1 <= k <= 508,
            k as int == chunk_budget(hb),
            lines_bytes(res@) + lines_from_chunks(hb, tb.skip(pos as int), k as int)
                == lines_from_chunks(hb, tb, k as int),
        decreases m - pos,
    {
        let end = if m - pos <= k {
            m
        } else {
            pos + k
        };
        let ghost t = tb.skip(pos as int);
        let ghost c0 = first_chunk(t, k as int);
        proof {
            assert(c0 =~= tb.subrange(pos as int, end as int));
            assert(rest_after_chunk(t, k as int) =~= tb.skip(end as int));
            lemma_lines_step(hb, t, k as int);
            lemma_slice_valid_iff_boundaries(tb, pos as int, end as int);
        }
        let start_ok = tail.is_char_boundary(pos);
        let end_ok = tail.is_char_boundary(end);
        if start_ok && end_ok {
            let (_, suf) = tail.split_at(pos);
            proof {
                assert(suf.spec_bytes() =~= tb.skip(pos as int));
                lemma_boundary_shift(tb, pos as int, end as int);
            }
            let (chunk, _) = suf.split_at(end - pos);
            proof {
                assert(chunk.spec_bytes() =~= tb.subrange(pos as int, end as int));
            }
            let line = build_line(head, chunk);
            let ghost before = res@;
            res.push(line);
            proof {
                assert(lines_bytes(res@) =~= lines_bytes(before) + seq![encode_utf8(line@)]);
                assert(encode_utf8(line@) == line_of(hb, c0));
                assert(lines_bytes(before) + (seq![line_of(hb, c0)] + lines_from_chunks(
                    hb,
                    tb.skip(end as int),
                    k as int,
                )) =~= (lines_bytes(before) + seq![line_of(hb, c0)]) + lines_from_chunks(
                    hb,
                    tb.skip(end as int),
                    k as int,
                ));
            }
        } else {
            proof {
                assert(!valid_utf8(c0));
                assert(Seq::<Seq<u8>>::empty() + lines_from_chunks(
                    hb,
                    tb.skip(end as int),
                    k as int,
                ) =~= lines_from_chunks(hb, tb.skip(end as int), k as int));
            }
        }
        pos = end;
    }
    proof {
        assert(tb.skip(m as int) =~= Seq::<u8>::empty());
        lemma_lines_empty(hb, k as int);
        assert(lines_bytes(res@) + Seq::<Seq<u8>>::empty() =~= lines_bytes(res@));
        assert(!takes_single_line(b));
    }
    res
}

} // verus!

