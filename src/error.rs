//! Why a message could not be parsed or serialized.
use vstd::prelude::*;

verus! {

/// A field of the wire format, named in truncation errors.
#[derive(Debug, Clone, Copy, PartialEq, Eq, Structural)]
pub enum Field {
    Id,
    Bitfields,
    QuestionCount,
    AnswerCount,
    AuthorityCount,
    AdditionalCount,
    QuestionType,
    QuestionClass,
    RrType,
    RrClass,
    Ttl,
    DataLength,
    Data,
    Name,
    Pointer,
    Label,
    CharacterStringLength,
    CharacterString,
    SoaSerial,
    SoaRefresh,
    SoaRetry,
    SoaExpire,
    SoaMinimum,
    MxPreference,
    WksAddress,
    WksProtocol,
}

/// Every way in which decoding or encoding can fail.
#[derive(Debug, Clone, Copy, PartialEq, Eq, Structural)]
pub enum Error {
    /// Fewer bytes remain than the field needs.
    Incomplete(Field),
    /// The opcode in the header is not one of the three defined values.
    ReservedOpcode(u16),
    /// The response code in the header is not one of the six defined values.
    ReservedResponseCode(u16),
    /// The three reserved header bits are not all zero.
    ReservedBitsSet,
    /// An RR type outside 1 to 16.
    InvalidType(u16),
    /// An RR class outside 1 to 4.
    InvalidClass(u16),
    /// A question type that is neither an RR type nor one of the query-only types.
    InvalidQuestionType(u16),
    /// A question class that is neither an RR class nor the wildcard class.
    InvalidQuestionClass(u16),
    /// A label length byte whose top two bits are `01` or `10`.
    ReservedLabelBits,
    /// A compression pointer that does not point strictly backward.
    PointerNotBackward,
    /// A label holds a byte outside ASCII.
    LabelNotAscii,
    /// A name read longer than 255 characters, or one to write whose
    /// encoded labels pass 255 bytes.
    NameTooLong,
    /// The data of an A record is not four bytes long.
    AddressLength,
    /// A character string is not valid UTF-8.
    StringNotUtf8,
    /// The RR data holds bytes that its type does not account for.
    DataLengthMismatch,
    /// A name to serialize holds characters outside ASCII.
    NameNotAscii,
    /// A compression pointer offset that does not fit in 14 bits.
    OffsetTooLarge,
    /// A name to compress ends with the root label.
    RootBeforePointer,
    /// A name to serialize without compression does not end with the root label.
    MissingRoot,
    /// A name to serialize has an empty label before its end.
    EmptyLabel,
    /// A name to serialize has a label longer than 63 bytes.
    LabelTooLong,
    /// A character string longer than 255 bytes.
    StringTooLong,
    /// The RR data does not belong to the RR type.
    TypeMismatch,
    /// Serialized RR data longer than 65535 bytes.
    DataTooLong,
    /// A section with more than 65535 entries.
    CountTooLarge,
}

} // verus!
