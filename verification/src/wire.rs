use vstd::prelude::*;
use vstd::utf8::{decode_utf8, encode_utf8, valid_utf8, is_ascii_chars};
use vstd::slice::slice_to_vec;
use crate::errors::ParseError;

verus! {

/// Bound on how many compression pointers one name may follow before the
/// decoder reports `CompressionLoop`.
pub const MAX_POINTER_DEPTH: usize = 64;

/// The byte that separates labels in a dotted domain name.
pub const DOT: u8 = 46;

// ---------------------------------------------------------------------------
// Big-endian integer fields
// ---------------------------------------------------------------------------

/// The 16-bit big-endian integer at position `i` of `b`.
pub open spec fn u16_at(b: Seq<u8>, i: int) -> u16
    recommends
        0 <= i,
        i + 2 <= b.len(),
{
    (b[i] * 256 + b[i + 1]) as u16
}

/// The 32-bit big-endian integer at position `i` of `b`.
pub open spec fn u32_at(b: Seq<u8>, i: int) -> u32
    recommends
        0 <= i,
        i + 4 <= b.len(),
{
    (b[i] * 0x1000000 + b[i + 1] * 0x10000 + b[i + 2] * 256 + b[i + 3]) as u32
}

/// The high byte of a 16-bit integer.
pub open spec fn byte_hi(x: u16) -> u8 {
    (x / 256) as u8
}

/// The low byte of a 16-bit integer.
pub open spec fn byte_lo(x: u16) -> u8 {
    (x % 256) as u8
}

/// Reading two big-endian bytes back gives the integer they came from.
pub broadcast proof fn lemma_u16_bytes_round_trip(x: u16)
    ensures
        #![trigger byte_hi(x), byte_lo(x)]
        byte_hi(x) * 256 + byte_lo(x) == x,
{
}

// ---------------------------------------------------------------------------
// Splitting a dotted name into labels
// ---------------------------------------------------------------------------

/// Index of the first dot in `s`, or `s.len()` if there is none.
pub open spec fn first_dot(s: Seq<u8>) -> int
    decreases s.len(),
{
    if s.len() == 0 {
        0
    } else if s[0] == DOT {
        0
    } else {
        1 + first_dot(s.drop_first())
    }
}

/// The labels of `s`, split on dots, as `str::split('.')` yields them:
/// a byte string with no dot is one label, possibly empty.
pub open spec fn split_dots(s: Seq<u8>) -> Seq<Seq<u8>>
    decreases s.len(),
{
    let i = first_dot(s);
    if 0 <= i < s.len() {
        seq![s.take(i)] + split_dots(s.skip(i + 1))
    } else {
        seq![s]
    }
}

pub proof fn lemma_first_dot_le_len(s: Seq<u8>)
    ensures
        0 <= first_dot(s) <= s.len(),
        forall|k: int| 0 <= k < first_dot(s) ==> s[k] != DOT,
        first_dot(s) < s.len() ==> s[first_dot(s)] == DOT,
    decreases s.len(),
{
    if s.len() != 0 && s[0] != DOT {
        lemma_first_dot_le_len(s.drop_first());
        assert forall|k: int| 0 <= k < first_dot(s) implies s[k] != DOT by {
            if k > 0 {
                assert(s.drop_first()[k - 1] != DOT);
            }
        }
    }
}

/// `first_dot` is the unique position that is dot-free on its left and is a
/// dot or the end of the sequence.
pub proof fn lemma_first_dot_is(s: Seq<u8>, j: int)
    requires
        0 <= j <= s.len(),
        forall|k: int| 0 <= k < j ==> s[k] != DOT,
        j < s.len() ==> s[j] == DOT,
    ensures
        first_dot(s) == j,
{
    lemma_first_dot_le_len(s);
    let i = first_dot(s);
    if i < j {
        assert(s[i] == DOT);
    } else if j < i {
        assert(s[j] != DOT);
    }
}

/// Joining byte labels with dots.
pub open spec fn join_bytes(labels: Seq<Seq<u8>>) -> Seq<u8>
    decreases labels.len(),
{
    if labels.len() == 0 {
        seq![]
    } else if labels.len() == 1 {
        labels[0]
    } else {
        labels[0] + seq![DOT] + join_bytes(labels.drop_first())
    }
}

/// Splitting on dots inverts joining with dots, and yields dot-free labels.
pub proof fn lemma_split_dots_join(s: Seq<u8>)
    ensures
        split_dots(s).len() >= 1,
        join_bytes(split_dots(s)) =~= s,
        forall|i: int, k: int|
            0 <= i < split_dots(s).len() && 0 <= k < split_dots(s)[i].len()
                ==> split_dots(s)[i][k] != DOT,
    decreases s.len(),
{
    lemma_first_dot_le_len(s);
    let d = first_dot(s);
    if 0 <= d < s.len() {
        lemma_split_dots_join(s.skip(d + 1));
        let rest = split_dots(s.skip(d + 1));
        if rest.len() == 0 {
        } else {
            assert(join_bytes(seq![s.take(d)] + rest) =~= s.take(d) + seq![DOT] + join_bytes(rest))
                by {
                assert((seq![s.take(d)] + rest).drop_first() =~= rest);
            }
        }
    }
}

// ---------------------------------------------------------------------------
// Wire form of a name: length-prefixed labels, terminated by a zero byte
// ---------------------------------------------------------------------------

/// The length-prefixed labels, without the terminating zero byte.
pub open spec fn wire_labels(labels: Seq<Seq<u8>>) -> Seq<u8>
    decreases labels.len(),
{
    if labels.len() == 0 {
        seq![]
    } else {
        seq![labels[0].len() as u8] + labels[0] + wire_labels(labels.drop_first())
    }
}

/// The full wire form of a name: length-prefixed labels and a zero byte.
pub open spec fn wire_of(labels: Seq<Seq<u8>>) -> Seq<u8> {
    wire_labels(labels) + seq![0u8]
}

/// The wire form of concatenated label lists is the concatenation of their
/// wire forms.
pub proof fn lemma_wire_labels_concat(a: Seq<Seq<u8>>, b: Seq<Seq<u8>>)
    ensures
        wire_labels(a + b) =~= wire_labels(a) + wire_labels(b),
    decreases a.len(),
{
    if a.len() == 0 {
        assert(a + b =~= b);
    } else {
        lemma_wire_labels_concat(a.drop_first(), b);
        assert((a + b).drop_first() =~= a.drop_first() + b);
        assert((a + b)[0] == a[0]);
        assert(wire_labels(a + b) =~= seq![a[0].len() as u8] + a[0] + (wire_labels(
            a.drop_first(),
        ) + wire_labels(b)));
    }
}

/// Appending one label on the right extends the wire form on the right.
pub proof fn lemma_wire_labels_push(labels: Seq<Seq<u8>>, l: Seq<u8>)
    ensures
        wire_labels(labels.push(l)) =~= wire_labels(labels) + seq![l.len() as u8] + l,
{
    lemma_wire_labels_concat(labels, seq![l]);
    assert(labels.push(l) =~= labels + seq![l]);
    assert(seq![l].drop_first() =~= Seq::<Seq<u8>>::empty());
    assert(seq![l][0] == l);
    assert(wire_labels(seq![l]) =~= seq![seq![l][0].len() as u8] + seq![l][0] + wire_labels(
        seq![l].drop_first(),
    ));
    assert(wire_labels(seq![l]) =~= seq![l.len() as u8] + l);
}

// ---------------------------------------------------------------------------
// Decoding a wire-form name
// ---------------------------------------------------------------------------

/// Decodes the name that starts at position `pos` of `local`.  A length byte
/// of zero ends the name; a byte with both top bits set is, with the next
/// byte, a 14-bit offset into `msg`, the full message, and is followed there;
/// any other length byte prefixes a literal label.  Yields the label
/// sequence and the position just past the name's bytes in `local` (a
/// followed pointer counts only its own two bytes).  `depth` bounds how many
/// pointers may be followed.
pub open spec fn spec_read_name(msg: Seq<u8>, local: Seq<u8>, pos: int, depth: int) -> Result<
    (Seq<Seq<u8>>, int),
    ParseError,
>
    decreases depth, local.len() - pos,
{
    if pos < 0 || pos >= local.len() {
        Err(ParseError::TruncatedInput)
    } else {
        let len = local[pos];
        if len == 0 {
            Ok((seq![], pos + 1))
        } else if len >= 192 {
            if depth <= 0 {
                Err(ParseError::CompressionLoop)
            } else if pos + 1 >= local.len() {
                Err(ParseError::TruncatedInput)
            } else {
                let target = (len - 192) * 256 + local[pos + 1];
                match spec_read_name(msg, msg, target, depth - 1) {
                    Ok((labels, _)) => Ok((labels, pos + 2)),
                    Err(e) => Err(e),
                }
            }
        } else {
            if pos + 1 + len > local.len() {
                Err(ParseError::TruncatedInput)
            } else {
                let label = local.subrange(pos + 1, pos + 1 + len);
                match spec_read_name(msg, local, pos + 1 + len, depth) {
                    Ok((labels, end)) => Ok((seq![label] + labels, end)),
                    Err(e) => Err(e),
                }
            }
        }
    }
}

/// A name whose first byte is a compression pointer decodes to the name at
/// the pointed-to offset of the full message and occupies exactly two bytes.
pub proof fn lemma_pointer_consumes_two(msg: Seq<u8>, local: Seq<u8>, pos: int, depth: int)
    requires
        0 <= pos,
        pos + 1 < local.len(),
        local[pos] >= 192,
        depth >= 1,
    ensures
        spec_read_name(msg, local, pos, depth) == (match spec_read_name(
            msg,
            msg,
            (local[pos] - 192) * 256 + local[pos + 1],
            depth - 1,
        ) {
            Ok((labels, end)) => Ok::<(Seq<Seq<u8>>, int), ParseError>((labels, pos + 2)),
            Err(e) => Err::<(Seq<Seq<u8>>, int), ParseError>(e),
        }),
{
}

/// Decoding the wire form of labels of one to 63 bytes each, at any position
/// where those bytes stand, gives the labels back and stops at the byte after
/// the terminating zero.
pub proof fn lemma_read_wire_of(
    msg: Seq<u8>,
    local: Seq<u8>,
    pos: int,
    depth: int,
    labels: Seq<Seq<u8>>,
)
    requires
        0 <= pos,
        pos + wire_of(labels).len() <= local.len(),
        local.subrange(pos, pos + wire_of(labels).len()) =~= wire_of(labels),
        forall|i: int| 0 <= i < labels.len() ==> 1 <= #[trigger] labels[i].len() <= 63,
        depth >= 0,
    ensures
        spec_read_name(msg, local, pos, depth) == Ok::<(Seq<Seq<u8>>, int), ParseError>(
            (labels, pos + wire_of(labels).len()),
        ),
    decreases labels.len(),
{
    let w = wire_of(labels);
    if labels.len() == 0 {
        assert(labels =~= seq![]);
        assert(w[0] == 0);
        assert(local[pos] == w[0]);
    } else {
        let l0 = labels[0];
        let n = l0.len() as int;
        assert(local[pos] == w[0]);
        assert(w[0] == l0.len() as u8);
        let rest = labels.drop_first();
        let wrest = wire_of(rest);
        assert(w =~= seq![l0.len() as u8] + l0 + wrest);
        assert(local.subrange(pos + 1, pos + 1 + n) =~= l0) by {
            assert forall|k: int| 0 <= k < n implies local[pos + 1 + k] == l0[k] by {
                assert(w[1 + k] == l0[k]);
            }
        }
        assert(local.subrange(pos + 1 + n, pos + 1 + n + wrest.len()) =~= wrest) by {
            assert forall|k: int| 0 <= k < wrest.len() implies local[pos + 1 + n + k]
                == wrest[k] by {
                assert(w[1 + n + k] == wrest[k]);
            }
        }
        lemma_read_wire_of(msg, local, pos + 1 + n, depth, rest);
        assert(seq![l0] + rest =~= labels);
    }
}

/// A decoded name starts before its end, which lies within the buffer.
pub proof fn lemma_read_name_end(msg: Seq<u8>, local: Seq<u8>, pos: int, depth: int)
    ensures
        spec_read_name(msg, local, pos, depth) matches Ok((labels, end)) ==> pos < end
            <= local.len(),
    decreases depth, local.len() - pos,
{
    if 0 <= pos < local.len() {
        let len = local[pos];
        if len == 0 {
        } else if len >= 192 {
        } else if pos + 1 + len <= local.len() {
            lemma_read_name_end(msg, local, pos + 1 + len, depth);
        }
    }
}

// ---------------------------------------------------------------------------
// From label bytes to text
// ---------------------------------------------------------------------------

/// The characters that lossy UTF-8 decoding yields for a byte sequence that
/// is not valid UTF-8.
pub uninterp spec fn utf8_replaced(bytes: Seq<u8>) -> Seq<char>;

/// The text a byte sequence decodes to: valid UTF-8 decodes exactly, other
/// bytes decode with replacements.
pub open spec fn label_chars(bytes: Seq<u8>) -> Seq<char> {
    if valid_utf8(bytes) {
        decode_utf8(bytes)
    } else {
        utf8_replaced(bytes)
    }
}

/// Relies on `String::from_utf8_lossy`: bytes that are valid UTF-8 convert
/// losslessly, and invalid sequences are replaced with U+FFFD, written here
/// as `utf8_replaced`.
#[verifier::external_body]
fn lossy_string(bytes: &[u8]) -> (r: String)
    ensures
        valid_utf8(bytes@) ==> r@ == decode_utf8(bytes@),
        !valid_utf8(bytes@) ==> r@ == utf8_replaced(bytes@),
{
    String::from_utf8_lossy(bytes).into_owned()
}

/// Character sequences joined by a separator character.
pub open spec fn join_sep(parts: Seq<Seq<char>>, sep: char) -> Seq<char>
    decreases parts.len(),
{
    if parts.len() == 0 {
        seq![]
    } else if parts.len() == 1 {
        parts[0]
    } else {
        parts[0] + seq![sep] + join_sep(parts.drop_first(), sep)
    }
}

/// The dotted text of a label sequence.
pub open spec fn dotted_chars(labels: Seq<Seq<u8>>) -> Seq<char> {
    join_sep(labels.map_values(|l: Seq<u8>| label_chars(l)), '.')
}

/// Relies on `itertools::join`: the items' `Display` forms — for `String`s
/// the strings themselves — concatenated with the separator between them.
#[verifier::external_body]
fn join_labels(parts: &Vec<String>) -> (r: String)
    ensures
        r@ == join_sep(parts@.map_values(|s: String| s@), '.'),
{
    itertools::join(parts.iter(), ".")
}

/// A sequence of bytes below 128 is valid UTF-8 and decodes to the
/// characters with the same values.
pub proof fn lemma_ascii_bytes_chars(b: Seq<u8>)
    requires
        forall|i: int| 0 <= i < b.len() ==> b[i] < 128,
    ensures
        valid_utf8(b),
        decode_utf8(b) =~= b.map_values(|x: u8| x as char),
{
    broadcast use vstd::utf8::encode_utf8_valid_utf8;
    broadcast use vstd::utf8::encode_utf8_decode_utf8;
    broadcast use vstd::utf8::is_ascii_chars_encode_utf8;

    let chars = b.map_values(|x: u8| x as char);
    assert forall|i: int| 0 <= i < chars.len() implies '\0' <= #[trigger] chars[i]
        <= '\u{7f}' by {
        assert(chars[i] == b[i] as char);
        assert(b[i] as char as u32 == b[i] as u32);
    }
    assert(is_ascii_chars(chars));
    assert(encode_utf8(chars) =~= b);
    assert(decode_utf8(encode_utf8(chars)) == chars);
}

// ---------------------------------------------------------------------------
// Executable name decoding
// ---------------------------------------------------------------------------

/// Decodes the label sequence of the name at `pos` of `local`, following
/// compression pointers into `msg` at most `depth` times.
fn extract_labels(msg: &[u8], local: &[u8], pos: usize, depth: usize) -> (r: Result<
    (Vec<Vec<u8>>, usize),
    ParseError,
>)
    ensures
        (match r {
            Ok((labels, end)) => spec_read_name(msg@, local@, pos as int, depth as int) == Ok::<
                (Seq<Seq<u8>>, int),
                ParseError,
            >((labels@.map_values(|l: Vec<u8>| l@), end as int)),
            Err(e) => spec_read_name(msg@, local@, pos as int, depth as int) == Err::<
                (Seq<Seq<u8>>, int),
                ParseError,
            >(e),
        }),
    decreases depth, local@.len() - pos,
{
    if pos >= local.len() {
        return Err(ParseError::TruncatedInput);
    }
    let len = local[pos];
    if len == 0 {
        let labels: Vec<Vec<u8>> = Vec::new();
        assert(labels@.map_values(|l: Vec<u8>| l@) =~= Seq::<Seq<u8>>::empty());
        Ok((labels, pos + 1))
    } else if len >= 192 {
        if depth == 0 {
            return Err(ParseError::CompressionLoop);
        }
        if pos + 1 >= local.len() {
            return Err(ParseError::TruncatedInput);
        }
        let target = (len as usize - 192) * 256 + local[pos + 1] as usize;
        match extract_labels(msg, msg, target, depth - 1) {
            Ok((labels, _)) => Ok((labels, pos + 2)),
            Err(e) => Err(e),
        }
    } else {
        let avail = local.len() - pos - 1;
        if len as usize > avail {
            return Err(ParseError::TruncatedInput);
        }
        let label: Vec<u8> = slice_to_vec(&local[pos + 1..pos + 1 + len as usize]);
        match extract_labels(msg, local, pos + 1 + len as usize, depth) {
            Ok((mut labels, end)) => {
                let ghost before = labels@;
                labels.insert(0, label);
                assert(labels@.map_values(|l: Vec<u8>| l@) =~= seq![label@] + before.map_values(
                    |l: Vec<u8>| l@,
                ));
                Ok((labels, end))
            },
            Err(e) => Err(e),
        }
    }
}

/// The dotted text of the labels, each converted from bytes to text.
fn labels_to_string(labels: &Vec<Vec<u8>>) -> (r: String)
    ensures
        r@ == dotted_chars(labels@.map_values(|l: Vec<u8>| l@)),
{
    let mut parts: Vec<String> = Vec::new();
    let mut i: usize = 0;
    while i < labels.len()
        invariant
            i <= labels@.len(),
            parts@.len() == i,
            forall|j: int| 0 <= j < i ==> #[trigger] parts@[j]@ == label_chars(labels@[j]@),
        decreases labels@.len() - i,
    {
        parts.push(lossy_string(labels[i].as_slice()));
        i = i + 1;
    }
    let r = join_labels(&parts);
    assert(parts@.map_values(|s: String| s@) =~= labels@.map_values(|l: Vec<u8>| l@).map_values(
        |l: Seq<u8>| label_chars(l),
    ));
    r
}

/// Decodes the name at `offset` of `local` to its dotted text, resolving
/// compression pointers against `msg`, the full message.  Yields the text
/// and the position just past the name in `local`.
pub fn read_name(msg: &[u8], local: &[u8], offset: usize) -> (r: Result<(String, usize), ParseError>)
    ensures
        (match r {
            Ok((name, end)) => spec_read_name(
                msg@,
                local@,
                offset as int,
                MAX_POINTER_DEPTH as int,
            ) matches Ok((labels, e)) && name@ == dotted_chars(labels) && end as int == e,
            Err(e) => spec_read_name(msg@, local@, offset as int, MAX_POINTER_DEPTH as int)
                == Err::<(Seq<Seq<u8>>, int), ParseError>(e),
        }),
{
    match extract_labels(msg, local, offset, MAX_POINTER_DEPTH) {
        Ok((labels, end)) => Ok((labels_to_string(&labels), end)),
        Err(e) => Err(e),
    }
}

// ---------------------------------------------------------------------------
// Executable name encoding
// ---------------------------------------------------------------------------

/// Encodes a dotted name to wire form: each dot-separated label becomes a
/// length byte and the label's bytes, and a zero byte ends the name.  A
/// label longer than 63 bytes is refused.
pub fn encode_qname(fqdn: &str) -> (r: Result<Vec<u8>, ParseError>)
    ensures
        (match r {
            Ok(b) => {
                let labels = split_dots(encode_utf8(fqdn@));
                b@ == wire_of(labels) && (forall|i: int|
                    0 <= i < labels.len() ==> #[trigger] labels[i].len() <= 63)
            },
            Err(e) => e == ParseError::LabelTooLong && (exists|i: int|
                0 <= i < split_dots(encode_utf8(fqdn@)).len() && #[trigger] split_dots(
                    encode_utf8(fqdn@),
                )[i].len() > 63),
        }),
{
    let bytes: &[u8] = fqdn.as_bytes();
    let n: usize = bytes.len();
    let mut qname: Vec<u8> = Vec::new();
    let mut pos: usize = 0;
    let ghost mut done: Seq<Seq<u8>> = seq![];
    proof {
        assert(bytes@.skip(0) =~= bytes@);
        assert(seq![] + split_dots(bytes@) =~= split_dots(bytes@));
    }
    loop
        invariant
            bytes@ == encode_utf8(fqdn@),
            n == bytes@.len(),
            pos <= n,
            split_dots(bytes@) =~= done + split_dots(bytes@.skip(pos as int)),
            qname@ =~= wire_labels(done),
            forall|i: int| 0 <= i < done.len() ==> #[trigger] done[i].len() <= 63,
        decreases bytes@.len() - pos,
    {
        let ghost tail = bytes@.skip(pos as int);
        let mut d: usize = 0;
        while pos + d < n && bytes[pos + d] != DOT
            invariant
                n == bytes@.len(),
                pos + d <= n,
                pos <= n,
                tail == bytes@.skip(pos as int),
                forall|k: int| 0 <= k < d ==> #[trigger] tail[k] != DOT,
            decreases bytes@.len() - pos - d,
        {
            d = d + 1;
        }
        proof {
            lemma_first_dot_is(tail, d as int);
        }
        let ghost label = tail.take(d as int);
        if d > 63 {
            proof {
                lemma_first_dot_le_len(tail);
                if d < tail.len() {
                    assert(split_dots(tail)[0] == label);
                } else {
                    assert(tail.take(d as int) =~= tail);
                    assert(split_dots(tail)[0] == tail);
                }
                assert(split_dots(bytes@)[done.len() as int].len() > 63);
            }
            return Err(ParseError::LabelTooLong);
        }
        qname.push(d as u8);
        qname.extend_from_slice(&bytes[pos..pos + d]);
        proof {
            assert(bytes@.subrange(pos as int, pos + d) =~= label);
            lemma_wire_labels_push(done, label);
            done = done.push(label);
        }
        if pos + d == n {
            proof {
                assert(tail.take(d as int) =~= tail);
                assert(split_dots(tail) =~= seq![label]);
                assert(done =~= split_dots(bytes@));
            }
            qname.push(0);
            assert(qname@ =~= wire_of(split_dots(bytes@)));
            return Ok(qname);
        }
        pos = pos + d + 1;
        proof {
            assert(split_dots(tail) =~= seq![label] + split_dots(tail.skip(d + 1)));
            assert(bytes@.skip(pos as int) =~= tail.skip(d + 1));
            assert(done + split_dots(bytes@.skip(pos as int)) =~= (done.drop_last() + (seq![label]
                + split_dots(tail.skip(d + 1)))));
            assert(done.drop_last() =~= done.subrange(0, done.len() - 1));
        }
    }
}


/// The text of arbitrary bytes, decoded lossily.
pub fn bytes_to_text(bytes: &[u8]) -> (r: String)
    ensures
        r@ == label_chars(bytes@),
{
    lossy_string(bytes)
}

/// The text of bytes that are all ASCII: each byte becomes the character
/// with the same value.
pub fn ascii_text(bytes: &[u8]) -> (r: String)
    requires
        forall|i: int| 0 <= i < bytes@.len() ==> bytes@[i] < 128,
    ensures
        r@ == bytes@.map_values(|x: u8| x as char),
{
    proof {
        lemma_ascii_bytes_chars(bytes@);
    }
    lossy_string(bytes)
}


/// Index of the first dot character in `s`, or `s.len()` if there is none.
pub open spec fn first_dot_char(s: Seq<char>) -> int
    decreases s.len(),
{
    if s.len() == 0 {
        0
    } else if s[0] == '.' {
        0
    } else {
        1 + first_dot_char(s.drop_first())
    }
}

proof fn lemma_first_dot_char_le_len(s: Seq<char>)
    ensures
        0 <= first_dot_char(s) <= s.len(),
        forall|k: int| 0 <= k < first_dot_char(s) ==> s[k] != '.',
        first_dot_char(s) < s.len() ==> s[first_dot_char(s)] == '.',
    decreases s.len(),
{
    if s.len() != 0 && s[0] != '.' {
        lemma_first_dot_char_le_len(s.drop_first());
        assert forall|k: int| 0 <= k < first_dot_char(s) implies s[k] != '.' by {
            if k > 0 {
                assert(s.drop_first()[k - 1] != '.');
            }
        }
    }
}

/// The UTF-8 encoding of concatenated character sequences is the
/// concatenation of their encodings.
proof fn lemma_encode_utf8_concat(a: Seq<char>, b: Seq<char>)
    ensures
        encode_utf8(a + b) =~= encode_utf8(a) + encode_utf8(b),
    decreases a.len(),
{
    if a.len() == 0 {
        assert(a + b =~= b);
    } else {
        lemma_encode_utf8_concat(a.drop_first(), b);
        assert((a + b).drop_first() =~= a.drop_first() + b);
        assert((a + b)[0] == a[0]);
        assert(encode_utf8(a + b) =~= vstd::utf8::encode_scalar((a + b)[0] as u32) + (encode_utf8(
            a.drop_first(),
        ) + encode_utf8(b)));
    }
}

/// The dot character encodes as exactly the dot byte, and no byte of any
/// other character's encoding is the dot byte.
proof fn lemma_scalar_dot(c: char)
    ensures
        c == '.' ==> vstd::utf8::encode_scalar(c as u32) =~= seq![DOT],
        c != '.' ==> forall|k: int|
            0 <= k < vstd::utf8::encode_scalar(c as u32).len() ==> #[trigger] vstd::utf8::encode_scalar(
                c as u32,
            )[k] != DOT,
{
    broadcast use vstd::utf8::char_is_scalar;
    broadcast use vstd::utf8::char_u32_cast;

    let v = c as u32;
    if c == '.' {
        assert(v == 46);
        assert(vstd::utf8::leading_byte_width_1(46u32) == 46u8) by (bit_vector);
    } else {
        if vstd::utf8::has_width_1_encoding(v) {
            assert(vstd::utf8::leading_byte_width_1(v) == v) by (bit_vector)
                requires
                    v <= 0x7F,
            ;
            assert(v != 46);
        } else {
            assert(vstd::utf8::leading_byte_width_2(v) != DOT) by (bit_vector);
            assert(vstd::utf8::leading_byte_width_3(v) != DOT) by (bit_vector);
            assert(vstd::utf8::leading_byte_width_4(v) != DOT) by (bit_vector);
            assert(vstd::utf8::last_continuation_byte(v) != DOT) by (bit_vector);
            assert(vstd::utf8::second_last_continuation_byte(v) != DOT) by (bit_vector);
            assert(vstd::utf8::third_last_continuation_byte(v) != DOT) by (bit_vector);
        }
    }
}

/// The encoding of a dot-free character sequence holds no dot byte.
proof fn lemma_encode_dot_free(s: Seq<char>)
    requires
        forall|i: int| 0 <= i < s.len() ==> s[i] != '.',
    ensures
        forall|k: int| 0 <= k < encode_utf8(s).len() ==> encode_utf8(s)[k] != DOT,
    decreases s.len(),
{
    if s.len() != 0 {
        lemma_scalar_dot(s[0]);
        lemma_encode_dot_free(s.drop_first());
        let head = vstd::utf8::encode_scalar(s[0] as u32);
        assert forall|k: int| 0 <= k < encode_utf8(s).len() implies encode_utf8(s)[k] != DOT by {
            if k < head.len() {
                assert(encode_utf8(s)[k] == head[k]);
            } else {
                assert(encode_utf8(s)[k] == encode_utf8(s.drop_first())[k - head.len()]);
            }
        }
    }
}

/// The dotted text of the labels a character sequence's encoding splits
/// into is the character sequence itself: decoding recovers every label's
/// characters, and the dots between labels.
pub proof fn lemma_dotted_of_encode(s: Seq<char>)
    ensures
        dotted_chars(split_dots(encode_utf8(s))) =~= s,
    decreases s.len(),
{
    broadcast use vstd::utf8::encode_utf8_valid_utf8;
    broadcast use vstd::utf8::encode_utf8_decode_utf8;

    let b = encode_utf8(s);
    let m = first_dot_char(s);
    lemma_first_dot_char_le_len(s);
    if m >= s.len() {
        lemma_encode_dot_free(s);
        lemma_first_dot_is(b, b.len() as int);
        assert(split_dots(b) =~= seq![b]);
        assert(dotted_chars(split_dots(b)) =~= label_chars(b));
    } else {
        let pre = s.take(m);
        let post = s.skip(m + 1);
        assert(s =~= pre + (seq!['.'] + post));
        lemma_encode_utf8_concat(pre, seq!['.'] + post);
        lemma_encode_utf8_concat(seq!['.'], post);
        lemma_scalar_dot('.');
        assert(seq!['.'].drop_first() =~= Seq::<char>::empty());
        assert(seq!['.'][0] == '.');
        assert(encode_utf8(seq!['.']) =~= vstd::utf8::encode_scalar('.' as u32) + encode_utf8(
            seq!['.'].drop_first(),
        ));
        assert(encode_utf8(seq!['.']) =~= seq![DOT]);
        let bpre = encode_utf8(pre);
        let bpost = encode_utf8(post);
        assert(b =~= bpre + seq![DOT] + bpost);
        lemma_encode_dot_free(pre);
        assert forall|k: int| 0 <= k < bpre.len() implies b[k] != DOT by {
            assert(b[k] == bpre[k]);
        }
        lemma_first_dot_is(b, bpre.len() as int);
        assert(b.take(bpre.len() as int) =~= bpre);
        assert(b.skip(bpre.len() as int + 1) =~= bpost);
        assert(split_dots(b) =~= seq![bpre] + split_dots(bpost));
        lemma_dotted_of_encode(post);
        let mlabels = split_dots(b).map_values(|l: Seq<u8>| label_chars(l));
        assert(mlabels[0] == label_chars(bpre));
        assert(label_chars(bpre) =~= pre);
        assert(mlabels.drop_first() =~= split_dots(bpost).map_values(|l: Seq<u8>| label_chars(l)));
        lemma_split_dots_join(bpost);
        assert(split_dots(bpost).len() >= 1);
        assert(dotted_chars(split_dots(b)) =~= label_chars(bpre) + seq!['.'] + dotted_chars(
            split_dots(bpost),
        ));
    }
}

// ---------------------------------------------------------------------------
// Round trips of the name codec
// ---------------------------------------------------------------------------

/// Round trip on byte strings: the wire form of a dotted byte string whose
/// labels have one to 63 bytes decodes, under any full message and any
/// pointer budget, to the same labels, which join back to the string.
pub proof fn lemma_name_bytes_round_trip(msg: Seq<u8>, s: Seq<u8>, depth: int)
    requires
        depth >= 0,
        forall|i: int|
            0 <= i < split_dots(s).len() ==> 1 <= #[trigger] split_dots(s)[i].len() <= 63,
    ensures
        spec_read_name(msg, wire_of(split_dots(s)), 0, depth) == Ok::<
            (Seq<Seq<u8>>, int),
            ParseError,
        >((split_dots(s), wire_of(split_dots(s)).len() as int)),
        join_bytes(split_dots(s)) == s,
{
    let labels = split_dots(s);
    let w = wire_of(labels);
    assert(w.subrange(0, w.len() as int) =~= w);
    lemma_read_wire_of(msg, w, 0, depth, labels);
    lemma_split_dots_join(s);
}

/// Round trip on dotted names: encoding a name whose labels have one to
/// 63 bytes and decoding the result, against any full message and with no
/// compression involved, yields the original dotted text and consumes
/// exactly the encoding's bytes.
pub proof fn lemma_name_text_round_trip(msg: Seq<u8>, name: Seq<char>, depth: int)
    requires
        depth >= 0,
        forall|i: int|
            0 <= i < split_dots(encode_utf8(name)).len() ==> 1 <= #[trigger] split_dots(
                encode_utf8(name),
            )[i].len() <= 63,
    ensures
        spec_read_name(msg, wire_of(split_dots(encode_utf8(name))), 0, depth) matches Ok(
            (labels, end),
        ) && dotted_chars(labels) == name && end == wire_of(split_dots(encode_utf8(name))).len(),
{
    lemma_name_bytes_round_trip(msg, encode_utf8(name), depth);
    lemma_dotted_of_encode(name);
}

} // verus!
