//! Assembly of attachment records from their property streams, and the choice
//! of the name each one is written under.

use crate::property::view_opt;
use crate::utf16::{decode_utf16le, scalars_of, utf16le_text};
use vstd::prelude::*;

verus! {

/// Property code of the attachment payload.
pub open spec fn code_data() -> Seq<char> {
    "3701"@
}

/// Property code of the short (8.3) file name.
pub open spec fn code_short() -> Seq<char> {
    "3704"@
}

/// Property code of the long file name.
pub open spec fn code_long() -> Seq<char> {
    "3707"@
}

/// The label of an attachment that has no readable name.
pub open spec fn unnamed_attachment() -> Seq<char> {
    "(unnamed attachment)"@
}

/// What reading one property stream gave.
#[derive(Debug, PartialEq, Eq)]
pub enum PropertyRead {
    /// The storage has no child with this property code.
    Absent,
    /// The child exists but its stream could not be read.
    Unreadable,
    /// The full content of the stream.
    Bytes(Vec<u8>),
}

/// One attachment: its names and its payload.
#[derive(Debug, PartialEq, Eq)]
pub struct Attachment {
    pub short_filename: Option<String>,
    pub long_filename: Option<String>,
    pub data: Vec<u8>,
}

/// Why an attachment could not be extracted.
#[derive(Debug, PartialEq, Eq)]
pub enum ExtractError {
    /// The stream of the property `code` could not be read.
    Unreadable { code: String },
    /// The name property `code` is not valid UTF-16.
    InvalidName { code: String },
    /// The attachment has no payload; it is named by its best-known name.
    MissingData { attachment: String },
    /// The attachment has neither a long nor a short file name.
    MissingName,
    /// Every numbered variant of `filename` is already taken.
    NoFreeName { filename: String },
}

/// A name property decodes (or is absent).
pub open spec fn name_ok(p: PropertyRead) -> bool {
    match p {
        PropertyRead::Absent => true,
        PropertyRead::Unreadable => false,
        PropertyRead::Bytes(b) => utf16le_text(b@) is Some,
    }
}

/// `e` is the error reported for the failing name property `p` of code `code`.
pub open spec fn name_error(p: PropertyRead, code: Seq<char>, e: ExtractError) -> bool {
    match p {
        PropertyRead::Unreadable => e matches ExtractError::Unreadable { code: c } && c@ == code,
        PropertyRead::Bytes(_) => e matches ExtractError::InvalidName { code: c } && c@ == code,
        PropertyRead::Absent => false,
    }
}

/// `s` is the decoded value of the name property `p`.
pub open spec fn name_matches(p: PropertyRead, s: Option<String>) -> bool {
    match p {
        PropertyRead::Absent => s is None,
        PropertyRead::Unreadable => false,
        PropertyRead::Bytes(b) => s matches Some(t) && utf16le_text(b@) == Some(scalars_of(t@)),
    }
}

/// The name property `p` is a stream that decodes.
pub open spec fn decodes(p: PropertyRead) -> bool {
    p matches PropertyRead::Bytes(b) && utf16le_text(b@) is Some
}

/// The name property `p` is a stream that decodes to `label`.
pub open spec fn decodes_to(p: PropertyRead, label: Seq<char>) -> bool {
    p matches PropertyRead::Bytes(b) && utf16le_text(b@) == Some(scalars_of(label))
}

/// `label` names an attachment whose name properties are `short` and `long`:
/// the long name if it decodes, else the short name if it decodes, else a
/// placeholder.
pub open spec fn attachment_label(short: PropertyRead, long: PropertyRead, label: Seq<char>) -> bool {
    if decodes(long) {
        decodes_to(long, label)
    } else if decodes(short) {
        decodes_to(short, label)
    } else {
        label == unnamed_attachment()
    }
}

/// `r` is the outcome of assembling an attachment from its three property
/// reads: a missing payload is reported first, naming the attachment; then the
/// short name is checked, then the long name, then the payload stream.
pub open spec fn assembled(
    short: PropertyRead,
    long: PropertyRead,
    data: PropertyRead,
    r: Result<Attachment, ExtractError>,
) -> bool {
    if data is Absent {
        r matches Err(ExtractError::MissingData { attachment }) && attachment_label(
            short,
            long,
            attachment@,
        )
    } else if !name_ok(short) {
        r matches Err(e) && name_error(short, code_short(), e)
    } else if !name_ok(long) {
        r matches Err(e) && name_error(long, code_long(), e)
    } else {
        match data {
            PropertyRead::Bytes(d) => r matches Ok(a) && name_matches(short, a.short_filename)
                && name_matches(long, a.long_filename) && a.data@ == d@,
            _ => r matches Err(ExtractError::Unreadable { code }) && code@ == code_data(),
        }
    }
}

/// The name an attachment is written under: the long name if present, else
/// the short one.
pub open spec fn chosen_name(a: Attachment) -> Option<Seq<char>> {
    match a.long_filename {
        Some(l) => Some(l@),
        None => view_opt(a.short_filename),
    }
}

/// `name` with the optional source-file prefix and a space before it.
pub open spec fn prefixed(prefix: Option<Seq<char>>, name: Seq<char>) -> Seq<char> {
    match prefix {
        Some(p) => p + seq![' '] + name,
        None => name,
    }
}

fn decode_name_property(p: PropertyRead, code: &str) -> (r: Result<Option<String>, ExtractError>)
    ensures
        r is Ok <==> name_ok(p),
        r matches Ok(s) ==> name_matches(p, s),
        r matches Err(e) ==> name_error(p, code@, e),
{
    match p {
        PropertyRead::Absent => Ok(None),
        PropertyRead::Unreadable => Err(ExtractError::Unreadable { code: String::from_str(code) }),
        PropertyRead::Bytes(b) => match decode_utf16le(b.as_slice()) {
            Some(s) => Ok(Some(s)),
            None => Err(ExtractError::InvalidName { code: String::from_str(code) }),
        },
    }
}

fn decoded_name(p: &PropertyRead) -> (r: Option<String>)
    ensures
        r is Some <==> decodes(*p),
        r matches Some(t) ==> decodes_to(*p, t@),
{
    match p {
        PropertyRead::Bytes(b) => decode_utf16le(b.as_slice()),
        _ => None,
    }
}

/// Builds an attachment record from what was read of its short name, long
/// name and payload properties.
pub fn assemble_attachment(short: PropertyRead, long: PropertyRead, data: PropertyRead) -> (r:
    Result<Attachment, ExtractError>)
    ensures
        assembled(short, long, data, r),
{
    if let PropertyRead::Absent = data {
        let attachment = match decoded_name(&long) {
            Some(l) => l,
            None => match decoded_name(&short) {
                Some(t) => t,
                None => String::from_str("(unnamed attachment)"),
            },
        };
        return Err(ExtractError::MissingData { attachment });
    }
    let short_filename = match decode_name_property(short, "3704") {
        Ok(s) => s,
        Err(e) => return Err(e),
    };
    let long_filename = match decode_name_property(long, "3707") {
        Ok(s) => s,
        Err(e) => return Err(e),
    };
    match data {
        PropertyRead::Bytes(d) => Ok(Attachment { short_filename, long_filename, data: d }),
        _ => Err(ExtractError::Unreadable { code: String::from_str("3701") }),
    }
}

impl Attachment {
    /// The name this attachment is written under, if it has one.
    pub fn filename(&self) -> (r: Option<String>)
        ensures
            view_opt(r) == chosen_name(*self),
    {
        match &self.long_filename {
            Some(l) => Some(l.clone()),
            None => match &self.short_filename {
                Some(s) => Some(s.clone()),
                None => None,
            },
        }
    }

    /// The output file name: the chosen name, after the source-file prefix and
    /// a space when a prefix is given.
    pub fn target_filename(&self, prefix: Option<&str>) -> (r: Result<String, ExtractError>)
        ensures
            chosen_name(*self) is None ==> r matches Err(ExtractError::MissingName),
            chosen_name(*self) matches Some(n) ==> (r matches Ok(t) && t@ == prefixed(
                match prefix {
                    Some(p) => Some(p@),
                    None => None,
                },
                n,
            )),
    {
        let name = match self.filename() {
            Some(n) => n,
            None => return Err(ExtractError::MissingName),
        };
        match prefix {
            Some(p) => {
                proof {
                    reveal_strlit(" ");
                }
                Ok(String::from_str(p).concat(" ").concat(name.as_str()))
            },
            None => Ok(name),
        }
    }
}

/// When both name properties decode and the payload is there, the chosen
/// file name is the decoded long name.
pub proof fn lemma_long_name_preferred(
    short: PropertyRead,
    long: PropertyRead,
    data: PropertyRead,
    r: Result<Attachment, ExtractError>,
)
    requires
        short is Bytes,
        long is Bytes,
        name_ok(short),
        name_ok(long),
        data is Bytes,
        assembled(short, long, data, r),
    ensures
        r is Ok,
        chosen_name(r->Ok_0) matches Some(n) && utf16le_text(long->Bytes_0@) == Some(scalars_of(n)),
{
}

/// An attachment without a payload property is a failure that names it (by
/// its long name if that decodes, else its short name if that decodes, else a
/// placeholder), and gives no record to write.
pub proof fn lemma_missing_payload_fails(
    short: PropertyRead,
    long: PropertyRead,
    r: Result<Attachment, ExtractError>,
)
    requires
        assembled(short, long, PropertyRead::Absent, r),
    ensures
        r matches Err(ExtractError::MissingData { attachment }) && attachment_label(
            short,
            long,
            attachment@,
        ),
{
}

} // verus!
