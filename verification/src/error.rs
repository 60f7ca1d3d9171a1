//! Error values of the userspace tools and of the data path.

use vstd::prelude::*;

verus! {

/// The subsystem an error comes from.
#[derive(Debug, Clone, Copy, PartialEq, Eq)]
pub enum ErrorKind {
    Io,
    Ebpf,
    BpfMap,
    Program,
    TryFromSlice,
    Bug,
}

pub open spec fn spec_kind_name(k: ErrorKind) -> Seq<char> {
    match k {
        ErrorKind::Io => "Io"@,
        ErrorKind::Ebpf => "Ebpf"@,
        ErrorKind::BpfMap => "Map"@,
        ErrorKind::Program => "Program"@,
        ErrorKind::TryFromSlice => "TryFromSlice"@,
        ErrorKind::Bug => "Bug"@,
    }
}

impl ErrorKind {
    /// The display name of the kind.
    pub fn as_str(&self) -> (r: &'static str)
        ensures
            r@ == spec_kind_name(*self),
    {
        match self {
            ErrorKind::Io => "Io",
            ErrorKind::Ebpf => "Ebpf",
            ErrorKind::BpfMap => "Map",
            ErrorKind::Program => "Program",
            ErrorKind::TryFromSlice => "TryFromSlice",
            ErrorKind::Bug => "Bug",
        }
    }
}

#[derive(Debug)]
pub struct EfenseError {
    pub kind: ErrorKind,
    pub msg: String,
}

impl EfenseError {
    /// The display text: `"<kind>: <msg>"`.
    pub fn to_string(&self) -> (r: String)
        ensures
            r@ == spec_kind_name(self.kind) + ": "@ + self.msg@,
    {
        let mut s = String::from_str(self.kind.as_str());
        s.append(": ");
        s.append(self.msg.as_str());
        s
    }
}

/// A message followed by the messages of its successive causes, joined
/// by `": "`.
pub open spec fn spec_error_chain(msgs: Seq<Seq<char>>) -> Seq<char>
    decreases msgs.len(),
{
    if msgs.len() == 0 {
        Seq::empty()
    } else if msgs.len() == 1 {
        msgs[0]
    } else {
        spec_error_chain(msgs.drop_last()) + ": "@ + msgs.last()
    }
}

/// The text of an error and of its chain of sources: `messages[0]` is
/// the error's own message, each later one the message of the source
/// of the previous error.
pub fn format_error_chain(messages: &Vec<String>) -> (r: String)
    ensures
        r@ == spec_error_chain(messages@.map_values(|m: String| m@)),
{
    let ghost v = messages@.map_values(|m: String| m@);
    let mut s = String::new();
    if messages.len() == 0 {
        return s;
    }
    s.append(messages[0].as_str());
    let mut i: usize = 1;
    assert(v.take(1).drop_last() =~= Seq::<Seq<char>>::empty());
    assert(s@ == spec_error_chain(v.take(1)));
    while i < messages.len()
        invariant
            1 <= i <= messages.len(),
            v == messages@.map_values(|m: String| m@),
            s@ == spec_error_chain(v.take(i as int)),
        decreases messages.len() - i,
    {
        s.append(": ");
        s.append(messages[i].as_str());
        assert(v.take(i + 1).drop_last() =~= v.take(i as int));
        i = i + 1;
    }
    assert(v.take(i as int) =~= v);
    s
}

impl From<String> for EfenseError {
    fn from(e: String) -> (r: Self) {
        EfenseError { kind: ErrorKind::Bug, msg: e }
    }
}

impl vstd::std_specs::convert::FromSpecImpl<String> for EfenseError {
    open spec fn obeys_from_spec() -> bool {
        true
    }

    open spec fn from_spec(v: String) -> Self {
        EfenseError { kind: ErrorKind::Bug, msg: v }
    }
}

impl<'a> From<&'a str> for EfenseError {
    fn from(e: &'a str) -> (r: Self)
        ensures
            r.kind == ErrorKind::Bug,
            r.msg@ == e@,
    {
        EfenseError { kind: ErrorKind::Bug, msg: String::from_str(e) }
    }
}

/// A `String` is not determined by its text in specifications, so the
/// conversion is not claimed to equal one chosen value; its own
/// `ensures` (kind `Bug`, the same text) is what callers get.
impl<'a> vstd::std_specs::convert::FromSpecImpl<&'a str> for EfenseError {
    open spec fn obeys_from_spec() -> bool {
        false
    }

    open spec fn from_spec(v: &'a str) -> Self {
        choose|r: EfenseError| r.kind == ErrorKind::Bug && r.msg@ == v@
    }
}

/// `std::array::TryFromSliceError`, the error of converting a slice into
/// an array of another length.
#[verifier::external_type_specification]
#[verifier::external_body]
pub struct ExTryFromSliceError(std::array::TryFromSliceError);

/// The text of a `TryFromSliceError`, by its `Display` impl (std's
/// `to_string`). Nothing is claimed of the text: std's documentation
/// does not give it.
#[verifier::external_body]
fn slice_error_text(e: &std::array::TryFromSliceError) -> (r: String) {
    e.to_string()
}

impl From<std::array::TryFromSliceError> for EfenseError {
    fn from(e: std::array::TryFromSliceError) -> (r: Self)
        ensures
            r.kind == ErrorKind::TryFromSlice,
    {
        EfenseError { kind: ErrorKind::TryFromSlice, msg: slice_error_text(&e) }
    }
}

/// The text of the error is not stated (see `slice_error_text`), so the
/// conversion is not claimed to equal one chosen value; its own
/// `ensures` (kind `TryFromSlice`) is what callers get.
impl vstd::std_specs::convert::FromSpecImpl<std::array::TryFromSliceError> for EfenseError {
    open spec fn obeys_from_spec() -> bool {
        false
    }

    open spec fn from_spec(v: std::array::TryFromSliceError) -> Self {
        choose|r: EfenseError| r.kind == ErrorKind::TryFromSlice
    }
}

/// Error codes of the data path.
#[derive(Debug, Clone, Copy, PartialEq, Eq)]
pub enum EfenseErrorCode {
    PacketTooSmall,
    InvalidProtocol,
}

impl EfenseErrorCode {
    /// The display text of the code.
    pub fn as_str(&self) -> (r: &'static str)
        ensures
            r@ == (match *self {
                EfenseErrorCode::PacketTooSmall => "packet too small"@,
                EfenseErrorCode::InvalidProtocol => "invalid protocol"@,
            }),
    {
        match self {
            EfenseErrorCode::PacketTooSmall => "packet too small",
            EfenseErrorCode::InvalidProtocol => "invalid protocol",
        }
    }
}

} // verus!
