//! Domain names on the wire: length-prefixed labels, the root label, and
//! backward compression pointers.
use vstd::prelude::*;
use vstd::utf8::*;

use crate::error::{Error, Field};
use crate::wire::{put_range, put_u16, text_of, u16_bytes};

verus! {

/// The byte that separates labels in the text form of a name.
pub const DOT: u8 = 46;

/// The longest label.
pub const MAX_LABEL_LEN: usize = 63;

/// The longest name, counted in characters of its text form.
pub const MAX_NAME_LEN: usize = 255;

/// The largest offset a compression pointer can hold.
pub const MAX_POINTER_OFFSET: u16 = 0x3fff;

/// Offset of the first '.' in `b`, or its length when it has none.
pub open spec fn first_dot(b: Seq<u8>) -> nat
    decreases b.len(),
{
    if b.len() == 0 {
        0
    } else if b[0] == DOT {
        0
    } else {
        1 + first_dot(b.drop_first())
    }
}

/// Each '.'-separated label of `b` as a length byte followed by its bytes.
pub open spec fn encode_labels(b: Seq<u8>) -> Seq<u8>
    decreases b.len(),
{
    let i = first_dot(b);
    if i >= b.len() {
        seq![i as u8] + b
    } else {
        seq![i as u8] + b.subrange(0, i as int) + encode_labels(b.subrange(i + 1 as int, b.len() as int))
    }
}

/// The first '.'-separated label of `b` that cannot stand in a name, if any:
/// an empty one, or one longer than 63 bytes.
pub open spec fn label_error(b: Seq<u8>) -> Option<Error>
    decreases b.len(),
{
    let i = first_dot(b);
    if i == 0 {
        Some(Error::EmptyLabel)
    } else if i > MAX_LABEL_LEN {
        Some(Error::LabelTooLong)
    } else if i >= b.len() {
        None
    } else {
        label_error(b.subrange(i + 1 as int, b.len() as int))
    }
}

/// Every byte is ASCII.
pub open spec fn all_ascii(b: Seq<u8>) -> bool {
    forall|k: int| 0 <= k < b.len() ==> b[k] < 128
}

/// The two bytes of a compression pointer to `offset`.
pub open spec fn pointer_bytes(offset: u16) -> Seq<u8> {
    u16_bytes((0xc000 + offset) as u16)
}

/// What `serialize` produces for the text `name`, compressed with a pointer
/// to `ptr` when there is one. The labels with their length bytes take one
/// byte more than the text; they may not exceed 255 bytes.
#[verifier::opaque]
pub open spec fn serialized(name: Seq<char>, ptr: Option<u16>) -> Result<Seq<u8>, Error> {
    let b = encode_utf8(name);
    if !is_ascii_chars(name) {
        Err(Error::NameNotAscii)
    } else {
        match ptr {
            Some(offset) => {
                if offset > MAX_POINTER_OFFSET {
                    Err(Error::OffsetTooLarge)
                } else if b.len() > 0 && b.last() == DOT {
                    Err(Error::RootBeforePointer)
                } else if b.len() >= MAX_NAME_LEN {
                    Err(Error::NameTooLong)
                } else if label_error(b) is Some {
                    Err(label_error(b)->0)
                } else {
                    Ok(encode_labels(b) + pointer_bytes(offset))
                }
            },
            None => {
                if b.len() == 0 || b.last() != DOT {
                    Err(Error::MissingRoot)
                } else if b.len() >= MAX_NAME_LEN {
                    Err(Error::NameTooLong)
                } else if label_error(b.drop_last()) is Some {
                    Err(label_error(b.drop_last())->0)
                } else {
                    Ok(encode_labels(b.drop_last()) + seq![0u8])
                }
            },
        }
    }
}

/// What a label length byte announces: a pointer (`Ok(true)`), a literal
/// label or the root (`Ok(false)`), or a reserved pattern.
pub open spec fn length_kind(len: u8) -> Result<bool, Error> {
    if len >= 0xc0 {
        Ok(true)
    } else if len < 0x40 {
        Ok(false)
    } else {
        Err(Error::ReservedLabelBits)
    }
}

/// The offset held by the pointer bytes `hi`, `lo` (`hi` has its top two bits set).
pub open spec fn pointer_target(hi: u8, lo: u8) -> int {
    (hi as int - 0xc0) * 256 + lo as int
}

/// The text of the name read at `p` with literal bytes readable below `lim`,
/// appended to `acc`: each label followed by '.'. Pointers continue the name
/// at an earlier offset, with the whole message readable.
pub open spec fn decode_from(msg: Seq<u8>, p: int, lim: int, acc: Seq<u8>) -> Result<Seq<u8>, Error>
    decreases 256 - acc.len(), p,
{
    if acc.len() > MAX_NAME_LEN {
        Err(Error::NameTooLong)
    } else if p < 0 || p >= lim || lim > msg.len() {
        Err(Error::Incomplete(Field::Name))
    } else {
        let len = msg[p];
        if len == 0 {
            Ok(acc)
        } else if length_kind(len) is Err {
            Err(Error::ReservedLabelBits)
        } else if len >= 0xc0 {
            if p + 2 > lim {
                Err(Error::Incomplete(Field::Pointer))
            } else if pointer_target(len, msg[p + 1]) >= p {
                Err(Error::PointerNotBackward)
            } else {
                decode_from(msg, pointer_target(len, msg[p + 1]), msg.len() as int, acc)
            }
        } else if p + 1 + len > lim {
            Err(Error::Incomplete(Field::Label))
        } else if !all_ascii(msg.subrange(p + 1, p + 1 + len)) {
            Err(Error::LabelNotAscii)
        } else if acc.len() + len + 1 > MAX_NAME_LEN {
            Err(Error::NameTooLong)
        } else {
            decode_from(msg, p + 1 + len, lim, acc + msg.subrange(p + 1, p + 1 + len) + seq![DOT])
        }
    }
}

/// The text of the name that starts at `p`.
pub open spec fn decoded(msg: Seq<u8>, p: int, lim: int) -> Result<Seq<u8>, Error> {
    decode_from(msg, p, lim, seq![])
}

/// The name that starts at `p` as text, and the offset past its own bytes.
pub open spec fn name_at(msg: Seq<u8>, p: int, lim: int) -> Result<(Seq<char>, int), Error> {
    match decoded(msg, p, lim) {
        Ok(t) => Ok((decode_utf8(t), name_end(msg, p, lim))),
        Err(e) => Err(e),
    }
}

/// Where the bytes of the name that starts at `p` end: past the root label
/// when no pointer is met, else past the first pointer.
pub open spec fn name_end(msg: Seq<u8>, p: int, lim: int) -> int
    decreases lim - p,
{
    if p < 0 || p >= lim || p >= msg.len() {
        p
    } else if msg[p] == 0 {
        p + 1
    } else if msg[p] >= 0xc0 {
        p + 2
    } else if p + 1 + msg[p] > lim {
        p
    } else {
        name_end(msg, p + 1 + msg[p], lim)
    }
}

proof fn lemma_first_dot(s: Seq<u8>, d: int)
    requires
        0 <= d <= s.len(),
        forall|k: int| 0 <= k < d ==> s[k] != DOT,
        d == s.len() || s[d] == DOT,
    ensures
        first_dot(s) == d,
    decreases d,
{
    if d > 0 {
        lemma_first_dot(s.drop_first(), d - 1);
    }
}

pub(crate) proof fn lemma_first_dot_bounds(s: Seq<u8>)
    ensures
        first_dot(s) <= s.len(),
        forall|k: int| 0 <= k < first_dot(s) ==> s[k] != DOT,
        first_dot(s) < s.len() ==> s[first_dot(s) as int] == DOT,
    decreases s.len(),
{
    if s.len() > 0 && s[0] != DOT {
        lemma_first_dot_bounds(s.drop_first());
        assert forall|k: int| 0 <= k < first_dot(s) implies s[k] != DOT by {
            if k > 0 {
                assert(s[k] == s.drop_first()[k - 1]);
            }
        }
    }
}

/// Reading labels that `encode_labels` wrote appends their text, each label
/// followed by '.', and leaves the cursor past them.
proof fn lemma_decode_labels(msg: Seq<u8>, p: int, lim: int, s: Seq<u8>, acc: Seq<u8>)
    requires
        label_error(s) is None,
        all_ascii(s),
        0 <= p,
        p + encode_labels(s).len() <= lim <= msg.len(),
        msg.subrange(p, p + encode_labels(s).len()) == encode_labels(s),
        acc.len() + s.len() + 1 <= MAX_NAME_LEN,
    ensures
        decode_from(msg, p, lim, acc) == decode_from(
            msg,
            p + encode_labels(s).len(),
            lim,
            acc + s + seq![DOT],
        ),
        name_end(msg, p, lim) == name_end(msg, p + encode_labels(s).len(), lim),
    decreases s.len(),
{
    let e = encode_labels(s);
    let i = first_dot(s) as int;
    lemma_first_dot_bounds(s);
    assert(msg[p] == msg.subrange(p, p + e.len())[0]);
    assert(msg[p] == i);
    let label = msg.subrange(p + 1, p + 1 + i);
    assert(label =~= s.subrange(0, i)) by {
        assert forall|k: int| 0 <= k < i implies label[k] == s[k] by {
            assert(label[k] == msg.subrange(p, p + e.len())[1 + k]);
        }
    }
    assert(all_ascii(label));
    if i < s.len() {
        let rest = s.subrange(i + 1, s.len() as int);
        let q = p + 1 + i;
        let acc2 = acc + label + seq![DOT];
        assert(e =~= seq![i as u8] + s.subrange(0, i) + encode_labels(rest));
        assert(msg.subrange(q, q + encode_labels(rest).len()) =~= encode_labels(rest)) by {
            assert forall|k: int| 0 <= k < encode_labels(rest).len() implies msg.subrange(
                q,
                q + encode_labels(rest).len(),
            )[k] == encode_labels(rest)[k] by {
                assert(msg.subrange(q, q + encode_labels(rest).len())[k] == msg.subrange(
                    p,
                    p + e.len(),
                )[1 + i + k]);
            }
        }
        assert(all_ascii(rest)) by {
            assert forall|k: int| 0 <= k < rest.len() implies rest[k] < 128 by {
                assert(rest[k] == s[i + 1 + k]);
            }
        }
        lemma_decode_labels(msg, q, lim, rest, acc2);
        assert(acc2 + rest + seq![DOT] =~= acc + s + seq![DOT]) by {
            assert(s =~= s.subrange(0, i) + seq![DOT] + rest);
        }
    } else {
        assert(s.subrange(0, i) =~= s);
    }
}

proof fn lemma_ascii_valid_utf8(b: Seq<u8>)
    requires
        all_ascii(b),
    ensures
        valid_utf8(b),
{
    assert(b.subrange(0, 0) =~= Seq::<u8>::empty());
    assert(partial_valid_utf8(b, 0));
    partial_valid_utf8_extend_ascii_block(b, 0, b.len() as int);
    assert(b.subrange(0, b.len() as int) =~= b);
}

/// The end of the label that starts at `i`: the next '.' before `n`, or `n`.
pub(crate) fn next_dot(b: &[u8], i: usize, n: usize) -> (j: usize)
    requires
        i <= n <= b@.len(),
    ensures
        j == i + first_dot(b@.subrange(i as int, n as int)),
        i <= j <= n,
{
    let mut j = i;
    while j < n && b[j] != DOT
        invariant
            i <= j <= n <= b@.len(),
            forall|k: int| i <= k < j ==> b@[k] != DOT,
        decreases n - j,
    {
        j = j + 1;
    }
    proof {
        lemma_first_dot(b@.subrange(i as int, n as int), j - i);
    }
    j
}

/// The first label of `b[..n]` that cannot stand in a name.
fn check_labels(b: &[u8], n: usize) -> (r: Option<Error>)
    requires
        n <= b@.len(),
    ensures
        r == label_error(b@.subrange(0, n as int)),
{
    let mut i: usize = 0;
    loop
        invariant
            i <= n <= b@.len(),
            label_error(b@.subrange(0, n as int)) == label_error(b@.subrange(i as int, n as int)),
        decreases n - i,
    {
        let j = next_dot(b, i, n);
        if j == i {
            return Some(Error::EmptyLabel);
        }
        if j - i > MAX_LABEL_LEN {
            return Some(Error::LabelTooLong);
        }
        if j == n {
            return None;
        }
        assert(b@.subrange(i as int, n as int).subrange(j - i + 1, n - i) =~= b@.subrange(
            j + 1,
            n as int,
        ));
        i = j + 1;
    }
}

/// Appends each label of `b[..n]` with its length byte.
fn put_labels(out: &mut Vec<u8>, b: &[u8], n: usize)
    requires
        n <= b@.len(),
    ensures
        final(out)@ == old(out)@ + encode_labels(b@.subrange(0, n as int)),
{
    let ghost start = out@;
    let mut i: usize = 0;
    loop
        invariant
            i <= n <= b@.len(),
            start == old(out)@,
            start + encode_labels(b@.subrange(0, n as int)) == out@ + encode_labels(
                b@.subrange(i as int, n as int),
            ),
        decreases n - i,
    {
        let ghost s = b@.subrange(i as int, n as int);
        let ghost before = out@;
        let j = next_dot(b, i, n);
        out.push(#[verifier::truncate] ((j - i) as u8));
        put_range(out, b, i, j);
        assert(s.subrange(0, j - i) =~= b@.subrange(i as int, j as int));
        if j == n {
            assert(s =~= b@.subrange(i as int, j as int));
            assert(encode_labels(s) == seq![(j - i) as u8] + s);
            assert(out@ =~= before + encode_labels(s));
            assert(encode_labels(b@.subrange(i as int, n as int)) == encode_labels(s));
            assert(out@ == start + encode_labels(b@.subrange(0, n as int)));
            return;
        }
        assert(s.subrange(j - i + 1, n - i) =~= b@.subrange(j + 1, n as int));
        assert(out@ + encode_labels(b@.subrange(j + 1, n as int)) =~= before + encode_labels(s));
        i = j + 1;
    }
}

/// Serializes the text `name` as labels. Without `ptr` the name must end
/// with the root label ('.'); with `ptr` it must not, and the labels are
/// followed by a compression pointer to that offset.
pub fn serialize(name: &str, ptr: Option<u16>) -> (r: Result<Vec<u8>, Error>)
    ensures
        r is Ok <==> serialized(name@, ptr) is Ok,
        r is Ok ==> r->Ok_0@ == serialized(name@, ptr)->Ok_0,
        r is Err ==> r->Err_0 == serialized(name@, ptr)->Err_0,
{
    reveal(serialized);
    if !name.is_ascii() {
        return Err(Error::NameNotAscii);
    }
    let b = name.as_bytes();
    let n = b.len();
    let mut out: Vec<u8> = Vec::new();
    match ptr {
        Some(offset) => {
            if offset > MAX_POINTER_OFFSET {
                return Err(Error::OffsetTooLarge);
            }
            if n > 0 && b[n - 1] == DOT {
                return Err(Error::RootBeforePointer);
            }
            if n >= MAX_NAME_LEN {
                return Err(Error::NameTooLong);
            }
            assert(b@.subrange(0, n as int) =~= b@);
            if let Some(e) = check_labels(b, n) {
                return Err(e);
            }
            put_labels(&mut out, b, n);
            put_u16(&mut out, 0xc000 + offset);
        },
        None => {
            if n == 0 || b[n - 1] != DOT {
                return Err(Error::MissingRoot);
            }
            if n >= MAX_NAME_LEN {
                return Err(Error::NameTooLong);
            }
            assert(b@.subrange(0, n - 1) =~= b@.drop_last());
            if let Some(e) = check_labels(b, n - 1) {
                return Err(e);
            }
            put_labels(&mut out, b, n - 1);
            out.push(0);
        },
    }
    Ok(out)
}

/// Writes each '.'-separated label of `name` with its length byte, then a
/// zero byte, without checking the labels. A trailing '.' yields an empty
/// label before that zero byte.
pub fn encode_name(name: &str) -> (r: Vec<u8>)
    ensures
        r@ == encode_labels(encode_utf8(name@)) + seq![0u8],
{
    let b = name.as_bytes();
    let mut out: Vec<u8> = Vec::new();
    put_labels(&mut out, b, b.len());
    assert(b@.subrange(0, b@.len() as int) =~= b@);
    out.push(0);
    assert(out@ =~= encode_labels(encode_utf8(name@)) + seq![0u8]);
    out
}

/// Tells a pointer (`true`) from a literal label or the root (`false`) by
/// the top two bits of a length byte; the other two patterns are reserved.
pub fn is_compressed(len: u8) -> (r: Result<bool, Error>)
    ensures
        r == length_kind(len),
{
    if len >= 0xc0 {
        Ok(true)
    } else if len < 0x40 {
        Ok(false)
    } else {
        Err(Error::ReservedLabelBits)
    }
}

/// Parses the name at `*pos`, whose own bytes lie below `end`; pointers may
/// lead anywhere earlier in `msg`. On success `*pos` moves past the name's
/// own bytes only; on failure it stays.
pub fn parse(msg: &[u8], pos: &mut usize, end: usize) -> (r: Result<String, Error>)
    requires
        *old(pos) <= end <= msg@.len(),
    ensures
        r is Ok <==> decoded(msg@, *old(pos) as int, end as int) is Ok,
        r is Ok ==> encode_utf8(r->Ok_0@) == decoded(msg@, *old(pos) as int, end as int)->Ok_0,
        r is Ok ==> r->Ok_0@ == decode_utf8(decoded(msg@, *old(pos) as int, end as int)->Ok_0),
        r is Ok ==> *final(pos) == name_end(msg@, *old(pos) as int, end as int),
        r is Ok ==> *old(pos) < *final(pos) <= end,
        r is Err ==> r->Err_0 == decoded(msg@, *old(pos) as int, end as int)->Err_0,
        r is Err ==> *final(pos) == *old(pos),
{
    let start = *pos;
    let mut p: usize = start;
    let mut lim: usize = end;
    let mut text: Vec<u8> = Vec::new();
    let mut resume: usize = 0;
    let mut jumped = false;
    assert(text@ =~= seq![]);
    loop
        invariant
            p <= lim <= msg@.len(),
            *pos == start,
            start == *old(pos),
            start <= end <= msg@.len(),
            text@.len() <= MAX_NAME_LEN,
            all_ascii(text@),
            decoded(msg@, start as int, end as int) == decode_from(
                msg@,
                p as int,
                lim as int,
                text@,
            ),
            !jumped ==> lim == end && name_end(msg@, start as int, end as int) == name_end(
                msg@,
                p as int,
                lim as int,
            ),
            jumped ==> resume as int == name_end(msg@, start as int, end as int),
            jumped ==> start < resume <= end,
            !jumped ==> start <= p,
        decreases 256 - text@.len(), p,
    {
        if p >= lim {
            return Err(Error::Incomplete(Field::Name));
        }
        let len = msg[p];
        if len == 0 {
            let stop = if jumped {
                resume
            } else {
                p + 1
            };
            proof {
                lemma_ascii_valid_utf8(text@);
            }
            match text_of(text.as_slice()) {
                Some(s) => {
                    proof {
                        encode_utf8_decode_utf8(s@);
                    }
                    *pos = stop;
                    return Ok(s.to_owned());
                },
                // Not reached: ASCII bytes are always valid UTF-8.
                None => {
                    return Err(Error::LabelNotAscii);
                },
            }
        }
        match is_compressed(len) {
            Err(e) => {
                return Err(e);
            },
            Ok(true) => {
                if lim - p < 2 {
                    return Err(Error::Incomplete(Field::Pointer));
                }
                let target = ((len - 0xc0) as usize) * 256 + msg[p + 1] as usize;
                if target >= p {
                    return Err(Error::PointerNotBackward);
                }
                if !jumped {
                    resume = p + 2;
                    jumped = true;
                }
                p = target;
                lim = msg.len();
            },
            Ok(false) => {
                let l = len as usize;
                if lim - (p + 1) < l {
                    return Err(Error::Incomplete(Field::Label));
                }
                let ghost before = text@;
                let mut k = p + 1;
                while k < p + 1 + l
                    invariant
                        p + 1 <= k <= p + 1 + l <= lim <= msg@.len(),
                        l == msg@[p as int],
                        0 < l < 0x40,
                        text@ == before + msg@.subrange(p + 1, k as int),
                        all_ascii(text@),
                        all_ascii(msg@.subrange(p + 1, k as int)),
                        before.len() <= MAX_NAME_LEN,
                        !jumped ==> lim == end && name_end(msg@, start as int, end as int)
                            == name_end(msg@, p as int, lim as int),
                        jumped ==> resume as int == name_end(msg@, start as int, end as int),
                        jumped ==> start < resume <= end,
                        !jumped ==> start <= p,
                        *pos == start,
                        start == *old(pos),
                        decoded(msg@, start as int, end as int) == decode_from(
                            msg@,
                            p as int,
                            lim as int,
                            before,
                        ),
                    decreases p + 1 + l - k,
                {
                    if msg[k] >= 128 {
                        assert(msg@.subrange(p + 1, p + 1 + l)[k - (p + 1)] == msg@[k as int]);
                        assert(!all_ascii(msg@.subrange(p + 1, p + 1 + l)));
                        assert(decode_from(msg@, p as int, lim as int, before) == Err::<
                            Seq<u8>,
                            Error,
                        >(Error::LabelNotAscii));
                        return Err(Error::LabelNotAscii);
                    }
                    text.push(msg[k]);
                    k = k + 1;
                    assert(text@ =~= before + msg@.subrange(p + 1, k as int));
                    assert(forall|m: int|
                        0 <= m < k - (p + 1) ==> #[trigger] msg@.subrange(p + 1, k as int)[m]
                            == msg@[p + 1 + m]);
                }
                let ghost label = msg@.subrange(p + 1, p + 1 + l);
                assert(text@ == before + label);
                text.push(DOT);
                assert(text@ =~= before + label + seq![DOT]);
                if text.len() > MAX_NAME_LEN {
                    return Err(Error::NameTooLong);
                }
                p = p + 1 + l;
            },
        }
    }
}

/// A name text fit to be written without compression: ASCII, at most 254
/// characters (255 bytes encoded), ending with the root label, and its labels 1 to 63 bytes long.
pub open spec fn valid_absolute(name: Seq<char>) -> bool {
    let b = encode_utf8(name);
    &&& is_ascii_chars(name)
    &&& b.len() < MAX_NAME_LEN
    &&& b.len() > 0 && b.last() == DOT
    &&& label_error(b.drop_last()) is None
}

/// A name text fit to be written before a compression pointer: ASCII, at
/// most 254 characters (255 bytes of labels), and labels 1 to 63 bytes long with no root label.
pub open spec fn valid_relative(name: Seq<char>) -> bool {
    let b = encode_utf8(name);
    &&& is_ascii_chars(name)
    &&& b.len() < MAX_NAME_LEN
    &&& !(b.len() > 0 && b.last() == DOT)
    &&& label_error(b) is None
}

proof fn lemma_ascii_bytes(name: Seq<char>)
    requires
        is_ascii_chars(name),
    ensures
        all_ascii(encode_utf8(name)),
        encode_utf8(name).len() == name.len(),
{
    is_ascii_chars_encode_utf8(name);
    let b = encode_utf8(name);
    assert forall|k: int| 0 <= k < b.len() implies b[k] < 128 by {
        assert(name[k] as u8 == b[k]);
    }
}

/// A name written without compression reads back as the same text, and the
/// read consumes exactly the bytes written.
pub proof fn law_name_round_trip(name: Seq<char>)
    requires
        valid_absolute(name),
    ensures
        serialized(name, None) is Ok,
        decoded(serialized(name, None)->Ok_0, 0, serialized(name, None)->Ok_0.len() as int)
            == Ok::<Seq<u8>, Error>(encode_utf8(name)),
        decode_utf8(encode_utf8(name)) == name,
        name_end(serialized(name, None)->Ok_0, 0, serialized(name, None)->Ok_0.len() as int)
            == serialized(name, None)->Ok_0.len(),
{
    reveal(serialized);
    let b = encode_utf8(name);
    let s = b.drop_last();
    lemma_ascii_bytes(name);
    let w = serialized(name, None)->Ok_0;
    let e = encode_labels(s);
    assert(w == e + seq![0u8]);
    assert(all_ascii(s));
    assert(w.subrange(0, e.len() as int) =~= e);
    lemma_decode_labels(w, 0, w.len() as int, s, seq![]);
    assert(seq![] + s + seq![DOT] =~= b);
    encode_utf8_decode_utf8(name);
}

/// A name written as labels and a pointer to an earlier name at offset 0
/// reads back as its labels followed by the earlier name, whatever lies
/// between the two and after it, and the read consumes only its own labels
/// and pointer.
pub proof fn law_compressed_name(a: Seq<char>, x: Seq<char>, mid: Seq<u8>, tail: Seq<u8>)
    requires
        valid_absolute(a),
        valid_relative(x),
        encode_utf8(x).len() + 1 + encode_utf8(a).len() <= MAX_NAME_LEN,
    ensures
        serialized(a, None) is Ok,
        serialized(x, Some(0)) is Ok,
        ({
            let wa = serialized(a, None)->Ok_0;
            let wx = serialized(x, Some(0))->Ok_0;
            let msg = wa + mid + wx + tail;
            let p = wa.len() + mid.len() as int;
            &&& decoded(msg, p, msg.len() as int) == Ok::<Seq<u8>, Error>(
                encode_utf8(x) + seq![DOT] + encode_utf8(a),
            )
            &&& name_end(msg, p, msg.len() as int) == p + wx.len()
        }),
{
    reveal(serialized);
    lemma_ascii_bytes(a);
    lemma_ascii_bytes(x);
    let ba = encode_utf8(a);
    let bx = encode_utf8(x);
    let sa = ba.drop_last();
    let ea = encode_labels(sa);
    let ex = encode_labels(bx);
    let wa = serialized(a, None)->Ok_0;
    let wx = serialized(x, Some(0))->Ok_0;
    assert(wa == ea + seq![0u8]);
    assert(wx == ex + pointer_bytes(0));
    let msg = wa + mid + wx + tail;
    let n = msg.len() as int;
    let p = wa.len() + mid.len() as int;
    let q = p + ex.len();
    assert(all_ascii(sa));
    assert(msg.subrange(p, q) =~= ex);
    lemma_decode_labels(msg, p, n, bx, seq![]);
    assert(msg[q] == 0xc0u8);
    assert(msg[q + 1] == 0u8);
    assert(pointer_target(msg[q], msg[q + 1]) == 0);
    assert(decode_from(msg, q, n, seq![] + bx + seq![DOT]) == decode_from(
        msg,
        0,
        n,
        seq![] + bx + seq![DOT],
    ));
    assert(msg.subrange(0, ea.len() as int) =~= ea);
    lemma_decode_labels(msg, 0, n, sa, seq![] + bx + seq![DOT]);
    assert(msg[ea.len() as int] == 0u8);
    assert(seq![] + bx + seq![DOT] + sa + seq![DOT] =~= bx + seq![DOT] + ba);
}

/// A pointer whose target is not strictly before the pointer itself is
/// refused, wherever in a name it stands.
pub proof fn law_pointer_not_backward(msg: Seq<u8>, p: int, lim: int, acc: Seq<u8>)
    requires
        0 <= p,
        p + 2 <= lim <= msg.len(),
        acc.len() <= MAX_NAME_LEN,
        msg[p] >= 0xc0,
        pointer_target(msg[p], msg[p + 1]) >= p,
    ensures
        decode_from(msg, p, lim, acc) == Err::<Seq<u8>, Error>(Error::PointerNotBackward),
{
}

/// A length byte whose top two bits are `01` or `10` is refused, wherever in
/// a name it stands.
pub proof fn law_reserved_label_bits(msg: Seq<u8>, p: int, lim: int, acc: Seq<u8>)
    requires
        0 <= p < lim <= msg.len(),
        acc.len() <= MAX_NAME_LEN,
        0x40 <= msg[p] < 0xc0,
    ensures
        decode_from(msg, p, lim, acc) == Err::<Seq<u8>, Error>(Error::ReservedLabelBits),
{
}

proof fn lemma_decode_bounded(msg: Seq<u8>, p: int, lim: int, acc: Seq<u8>)
    requires
        acc.len() <= MAX_NAME_LEN,
    ensures
        decode_from(msg, p, lim, acc) is Ok ==> decode_from(msg, p, lim, acc)->Ok_0.len()
            <= MAX_NAME_LEN,
    decreases 256 - acc.len(), p,
{
    if 0 <= p < lim <= msg.len() {
        let len = msg[p];
        if len >= 0xc0 && p + 2 <= lim && pointer_target(len, msg[p + 1]) < p {
            lemma_decode_bounded(msg, pointer_target(len, msg[p + 1]), msg.len() as int, acc);
        } else if 0 < len < 0x40 && p + 1 + len <= lim && acc.len() + len + 1 <= MAX_NAME_LEN {
            lemma_decode_bounded(
                msg,
                p + 1 + len,
                lim,
                acc + msg.subrange(p + 1, p + 1 + len) + seq![DOT],
            );
        }
    }
}

/// Every name that reads successfully is at most 255 characters long: a
/// longer one is refused.
pub proof fn law_name_length(msg: Seq<u8>, p: int, lim: int)
    ensures
        decoded(msg, p, lim) is Ok ==> decoded(msg, p, lim)->Ok_0.len() <= MAX_NAME_LEN,
{
    lemma_decode_bounded(msg, p, lim, seq![]);
}

/// A name that `serialize` accepts without compression, found at `p` with
/// its bytes below `lim`, reads back as itself and ends right after them.
pub proof fn lemma_name_at(msg: Seq<u8>, p: int, lim: int, n: Seq<char>)
    requires
        serialized(n, None) is Ok,
        0 <= p,
        p + serialized(n, None)->Ok_0.len() <= lim <= msg.len(),
        msg.subrange(p, p + serialized(n, None)->Ok_0.len()) == serialized(n, None)->Ok_0,
    ensures
        name_at(msg, p, lim) == Ok::<(Seq<char>, int), Error>(
            (n, p + serialized(n, None)->Ok_0.len()),
        ),
{
    reveal(serialized);
    let w = serialized(n, None)->Ok_0;
    let b = encode_utf8(n);
    let s = b.drop_last();
    lemma_ascii_bytes(n);
    let e = encode_labels(s);
    assert(w == e + seq![0u8]);
    assert(all_ascii(s));
    assert(msg.subrange(p, p + e.len()) =~= e) by {
        assert forall|k: int| 0 <= k < e.len() implies msg.subrange(p, p + e.len())[k] == e[k] by {
            assert(msg.subrange(p, p + e.len())[k] == msg.subrange(p, p + w.len())[k]);
        }
    }
    lemma_decode_labels(msg, p, lim, s, seq![]);
    assert(msg[p + e.len()] == msg.subrange(p, p + w.len())[e.len() as int]);
    assert(seq![] + s + seq![DOT] =~= b);
    encode_utf8_decode_utf8(n);
}

} // verus!
