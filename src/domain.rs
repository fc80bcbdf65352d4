//! Domain names checked and held as their labels.
use vstd::prelude::*;
use vstd::string::StringSliceAdditionalSpecFns;
use vstd::utf8::*;

use crate::name::{
    all_ascii, first_dot, lemma_first_dot_bounds, next_dot, DOT,
    MAX_LABEL_LEN, MAX_NAME_LEN,
};
use crate::wire::{put_range, text_of};

verus! {

/// The '.'-separated labels of `b`; a trailing '.' gives a last, empty label.
pub open spec fn split_labels(b: Seq<u8>) -> Seq<Seq<u8>>
    decreases b.len(),
{
    let i = first_dot(b);
    if i >= b.len() {
        seq![b]
    } else {
        seq![b.subrange(0, i as int)] + split_labels(b.subrange(i + 1 as int, b.len() as int))
    }
}

proof fn lemma_utf8_dot_split(rem: Seq<u8>, d: int)
    requires
        valid_utf8(rem),
        0 <= d < rem.len(),
        rem[d] == DOT,
    ensures
        valid_utf8(rem.subrange(0, d)),
        valid_utf8(rem.subrange(d + 1, rem.len() as int)),
{
    is_char_boundary_iff_not_is_continuation_byte(rem, d);
    valid_utf8_split(rem, d);
    let s = rem.subrange(d, rem.len() as int);
    assert(s[0] == DOT);
    assert(pop_first_scalar(s) =~= rem.subrange(d + 1, rem.len() as int));
}

/// The labels of `b`, each valid UTF-8 when `b` is.
fn split(b: &[u8]) -> (r: Vec<Vec<u8>>)
    requires
        valid_utf8(b@),
    ensures
        r@.map_values(|v: Vec<u8>| v@) == split_labels(b@),
        r@.len() >= 1,
        forall|k: int| 0 <= k < r@.len() ==> valid_utf8(#[trigger] r@[k]@),
{
    let n = b.len();
    let mut out: Vec<Vec<u8>> = Vec::new();
    let mut i: usize = 0;
    assert(b@.subrange(0, n as int) =~= b@);
    loop
        invariant
            i <= n == b@.len(),
            valid_utf8(b@.subrange(i as int, n as int)),
            split_labels(b@) == out@.map_values(|v: Vec<u8>| v@) + split_labels(
                b@.subrange(i as int, n as int),
            ),
            forall|k: int| 0 <= k < out@.len() ==> valid_utf8(#[trigger] out@[k]@),
        decreases n - i,
    {
        let ghost rem = b@.subrange(i as int, n as int);
        let ghost before = out@.map_values(|v: Vec<u8>| v@);
        let j = next_dot(b, i, n);
        proof {
            lemma_first_dot_bounds(rem);
        }
        let mut part: Vec<u8> = Vec::new();
        put_range(&mut part, b, i, j);
        assert(part@ =~= rem.subrange(0, j - i));
        if j < n {
            assert(rem[j - i] == DOT);
            proof {
                lemma_utf8_dot_split(rem, j - i);
            }
            assert(rem.subrange(j - i + 1, rem.len() as int) =~= b@.subrange(j + 1, n as int));
        } else {
            assert(part@ =~= rem);
        }
        out.push(part);
        assert(out@.map_values(|v: Vec<u8>| v@) =~= before.push(rem.subrange(0, j - i)));
        if j == n {
            assert(split_labels(rem) == seq![rem]);
            assert(split_labels(b@) =~= out@.map_values(|v: Vec<u8>| v@));
            return out;
        }
        assert(split_labels(b@) =~= out@.map_values(|v: Vec<u8>| v@) + split_labels(
            b@.subrange(j + 1, n as int),
        ));
        i = j + 1;
    }
}

/// The text that the UTF-8 bytes `l` encode.
fn to_text(l: &Vec<u8>) -> (r: String)
    requires
        valid_utf8(l@),
    ensures
        r@ == decode_utf8(l@),
{
    match text_of(l.as_slice()) {
        Some(s) => {
            proof {
                encode_utf8_decode_utf8(s@);
            }
            s.to_owned()
        },
        // Not reached: the bytes are valid UTF-8.
        None => String::new(),
    }
}

/// Every byte of `l` is ASCII.
fn ascii_bytes(l: &Vec<u8>) -> (r: bool)
    ensures
        r == all_ascii(l@),
{
    let mut m: usize = 0;
    while m < l.len()
        invariant
            m <= l@.len(),
            forall|x: int| 0 <= x < m ==> l@[x] < 128,
        decreases l@.len() - m,
    {
        if l[m] >= 128 {
            return false;
        }
        m = m + 1;
    }
    true
}

/// What a [`DomainNameError`] says, with its label as characters.
pub enum DomainNameFault {
    Empty,
    FirstLabelMissing,
    InteriorLabelMissing,
    LabelTooLong(Seq<char>),
    LabelNotAscii(Seq<char>),
    NameTooLong,
}

/// Why a text is not a domain name.
#[derive(Debug, Clone, PartialEq, Eq)]
pub enum DomainNameError {
    /// No label at all.
    Empty,
    /// The name starts with '.'.
    FirstLabelMissing,
    /// Two '.' with nothing between them.
    InteriorLabelMissing,
    /// A label longer than 63 bytes.
    LabelTooLong(String),
    /// A label with a character outside ASCII.
    LabelNotAscii(String),
    /// A name longer than 255 bytes.
    NameTooLong,
}

impl View for DomainNameError {
    type V = DomainNameFault;

    open spec fn view(&self) -> DomainNameFault {
        match self {
            DomainNameError::Empty => DomainNameFault::Empty,
            DomainNameError::FirstLabelMissing => DomainNameFault::FirstLabelMissing,
            DomainNameError::InteriorLabelMissing => DomainNameFault::InteriorLabelMissing,
            DomainNameError::LabelTooLong(s) => DomainNameFault::LabelTooLong(s@),
            DomainNameError::LabelNotAscii(s) => DomainNameFault::LabelNotAscii(s@),
            DomainNameError::NameTooLong => DomainNameFault::NameTooLong,
        }
    }
}

/// The text `s` without its leading and trailing whitespace.
pub uninterp spec fn trimmed(s: Seq<char>) -> Seq<char>;

/// Relies on str::trim: the text without leading and trailing Unicode
/// whitespace, which depends on the characters alone.
#[verifier::external_body]
fn trim_text<'a>(s: &'a str) -> (r: &'a str)
    ensures
        r@ == trimmed(s@),
{
    s.trim()
}

/// The '.'-separated labels of `b` as text, each trimmed.
pub open spec fn trimmed_labels(b: Seq<u8>) -> Seq<Seq<char>> {
    split_labels(b).map_values(|l: Seq<u8>| trimmed(decode_utf8(l)))
}

/// The first fault among the labels from the `k`-th on: an empty label
/// before the last, then one longer than 63 bytes, then one not ASCII.
pub open spec fn labels_fault(ls: Seq<Seq<char>>, k: int) -> Option<DomainNameFault>
    decreases ls.len() - k,
{
    if k < 0 || k >= ls.len() {
        None
    } else if k + 1 < ls.len() && ls[k].len() == 0 {
        Some(DomainNameFault::InteriorLabelMissing)
    } else if encode_utf8(ls[k]).len() > MAX_LABEL_LEN {
        Some(DomainNameFault::LabelTooLong(ls[k]))
    } else if !is_ascii_chars(ls[k]) {
        Some(DomainNameFault::LabelNotAscii(ls[k]))
    } else {
        labels_fault(ls, k + 1)
    }
}

/// The trimmed labels of the text `name` when it is a domain name, else why
/// not.
pub open spec fn domain_labels(name: Seq<char>) -> Result<Seq<Seq<char>>, DomainNameFault> {
    let b = encode_utf8(name);
    let ls = trimmed_labels(b);
    if b.len() > MAX_NAME_LEN {
        Err(DomainNameFault::NameTooLong)
    } else if ls[0].len() == 0 {
        Err(DomainNameFault::FirstLabelMissing)
    } else if labels_fault(ls, 0) is Some {
        Err(labels_fault(ls, 0)->0)
    } else {
        Ok(ls)
    }
}

/// A domain name as its labels, trimmed of surrounding whitespace: each at
/// most 63 ASCII bytes, none empty but a last one that stands for the root.
#[derive(Debug)]
pub struct DomainName {
    labels: Vec<String>,
}

impl DomainName {
    /// The labels.
    pub closed spec fn labels_view(&self) -> Seq<Seq<char>> {
        self.labels@.map_values(|s: String| s@)
    }

    /// Checks `name` and splits it into labels, each trimmed of surrounding
    /// whitespace before it is checked.
    pub fn new(name: String) -> (r: Result<DomainName, DomainNameError>)
        ensures
            r is Ok <==> domain_labels(name@) is Ok,
            r is Ok ==> r->Ok_0.labels_view() == domain_labels(name@)->Ok_0,
            r is Err ==> r->Err_0@ == domain_labels(name@)->Err_0,
    {
        let b = name.as_str().as_bytes();
        if b.len() > MAX_NAME_LEN {
            return Err(DomainNameError::NameTooLong);
        }
        proof {
            encode_utf8_valid_utf8(name@);
        }
        let parts = split(b);
        let ghost ps = parts@.map_values(|v: Vec<u8>| v@);
        let ghost ls = trimmed_labels(encode_utf8(name@));
        let mut labels: Vec<String> = Vec::new();
        let mut k: usize = 0;
        while k < parts.len()
            invariant
                k <= parts@.len(),
                ps == parts@.map_values(|v: Vec<u8>| v@),
                ps == split_labels(encode_utf8(name@)),
                ls == trimmed_labels(encode_utf8(name@)),
                ls.len() == parts@.len(),
                encode_utf8(name@).len() <= MAX_NAME_LEN,
                k > 0 ==> ls[0].len() != 0,
                forall|m: int| 0 <= m < parts@.len() ==> valid_utf8(#[trigger] parts@[m]@),
                labels_fault(ls, 0) == labels_fault(ls, k as int),
                labels@.map_values(|s: String| s@) == ls.subrange(0, k as int),
            decreases parts@.len() - k,
        {
            let l = &parts[k];
            assert(ps[k as int] == l@);
            assert(ls[k as int] == trimmed(decode_utf8(l@)));
            let text = to_text(l);
            let t = trim_text(text.as_str());
            if k == 0 && t.is_empty() {
                return Err(DomainNameError::FirstLabelMissing);
            }
            if k + 1 < parts.len() && t.is_empty() {
                return Err(DomainNameError::InteriorLabelMissing);
            }
            let tlen = t.as_bytes().len();
            assert(tlen == encode_utf8(t@).len());
            if tlen > MAX_LABEL_LEN {
                return Err(DomainNameError::LabelTooLong(t.to_owned()));
            }
            let ascii = t.is_ascii();
            assert(ascii == is_ascii_chars(ls[k as int]));
            if !ascii {
                return Err(DomainNameError::LabelNotAscii(t.to_owned()));
            }
            let label = t.to_owned();
            let ghost before = labels@.map_values(|s: String| s@);
            let ghost sv = label@;
            labels.push(label);
            assert(labels@.map_values(|s: String| s@) =~= before.push(sv));
            assert(ls.subrange(0, k + 1) =~= ls.subrange(0, k as int).push(ls[k as int]));
            k = k + 1;
        }
        assert(ls.subrange(0, k as int) =~= ls);
        Ok(DomainName { labels })
    }

    /// The name ends with the root label: its last label, once trimmed, is
    /// empty.
    pub fn is_absolute(&self) -> (r: bool)
        ensures
            r == (self.labels_view().len() > 0 && self.labels_view().last().len() == 0),
    {
        let n = self.labels.len();
        if n == 0 {
            return false;
        }
        assert(self.labels_view().last() == self.labels@[n - 1]@);
        self.labels[n - 1].as_str().is_empty()
    }
}

/// What a [`QnameError`] says, with its label as characters.
pub enum QnameFault {
    NotAscii,
    LabelTooLong(Seq<char>),
    NameTooLong,
}

/// Why a text is not a query name.
#[derive(Debug, Clone, PartialEq, Eq)]
pub enum QnameError {
    /// A character outside ASCII.
    NotAscii,
    /// A label longer than 63 bytes.
    LabelTooLong(String),
    /// A name longer than 255 bytes.
    NameTooLong,
}

impl View for QnameError {
    type V = QnameFault;

    open spec fn view(&self) -> QnameFault {
        match self {
            QnameError::NotAscii => QnameFault::NotAscii,
            QnameError::LabelTooLong(s) => QnameFault::LabelTooLong(s@),
            QnameError::NameTooLong => QnameFault::NameTooLong,
        }
    }
}

/// The first label from the `k`-th on that is longer than 63 bytes.
pub open spec fn long_label(ls: Seq<Seq<u8>>, k: int) -> Option<Seq<u8>>
    decreases ls.len() - k,
{
    if k < 0 || k >= ls.len() {
        None
    } else if ls[k].len() > MAX_LABEL_LEN {
        Some(ls[k])
    } else {
        long_label(ls, k + 1)
    }
}

/// The labels of the text `name` when it is a query name, else why not.
pub open spec fn qname_labels(name: Seq<char>) -> Result<Seq<Seq<char>>, QnameFault> {
    let b = encode_utf8(name);
    let ls = split_labels(b);
    if b.len() > MAX_NAME_LEN {
        Err(QnameFault::NameTooLong)
    } else if !is_ascii_chars(name) {
        Err(QnameFault::NotAscii)
    } else if long_label(ls, 0) is Some {
        Err(QnameFault::LabelTooLong(decode_utf8(long_label(ls, 0)->0)))
    } else {
        Ok(ls.map_values(|l: Seq<u8>| decode_utf8(l)))
    }
}

/// A query name as its labels: ASCII, each label at most 63 bytes.
#[derive(Debug)]
pub struct Qname {
    labels: Vec<String>,
}

impl Qname {
    /// The labels.
    pub closed spec fn labels_view(&self) -> Seq<Seq<char>> {
        self.labels@.map_values(|s: String| s@)
    }

    /// Checks `name` and splits it into labels.
    pub fn new(name: String) -> (r: Result<Qname, QnameError>)
        ensures
            r is Ok <==> qname_labels(name@) is Ok,
            r is Ok ==> r->Ok_0.labels_view() == qname_labels(name@)->Ok_0,
            r is Err ==> r->Err_0@ == qname_labels(name@)->Err_0,
    {
        let b = name.as_str().as_bytes();
        if b.len() > MAX_NAME_LEN {
            return Err(QnameError::NameTooLong);
        }
        if !name.as_str().is_ascii() {
            return Err(QnameError::NotAscii);
        }
        proof {
            encode_utf8_valid_utf8(name@);
        }
        let parts = split(b);
        let ghost ls = parts@.map_values(|v: Vec<u8>| v@);
        let mut labels: Vec<String> = Vec::new();
        let mut k: usize = 0;
        while k < parts.len()
            invariant
                k <= parts@.len(),
                ls == parts@.map_values(|v: Vec<u8>| v@),
                ls == split_labels(encode_utf8(name@)),
                encode_utf8(name@).len() <= MAX_NAME_LEN,
                is_ascii_chars(name@),
                forall|m: int| 0 <= m < parts@.len() ==> valid_utf8(#[trigger] parts@[m]@),
                long_label(ls, 0) == long_label(ls, k as int),
                labels@.map_values(|s: String| s@) == ls.subrange(0, k as int).map_values(
                    |l: Seq<u8>| decode_utf8(l),
                ),
            decreases parts@.len() - k,
        {
            let l = &parts[k];
            assert(ls[k as int] == l@);
            let s = to_text(l);
            if l.len() > MAX_LABEL_LEN {
                return Err(QnameError::LabelTooLong(s));
            }
            let ghost before = labels@.map_values(|s: String| s@);
            let ghost sv = s@;
            labels.push(s);
            assert(labels@.map_values(|s: String| s@) =~= before.push(sv));
            assert(ls.subrange(0, k + 1).map_values(|l: Seq<u8>| decode_utf8(l)) =~= ls.subrange(
                0,
                k as int,
            ).map_values(|l: Seq<u8>| decode_utf8(l)).push(decode_utf8(ls[k as int])));
            k = k + 1;
        }
        assert(ls.subrange(0, k as int) =~= ls);
        Ok(Qname { labels })
    }
}

} // verus!
