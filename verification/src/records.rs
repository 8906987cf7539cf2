use vstd::prelude::*;

verus! {

/// One FASTA record: the identifier is the text after the leading `>` of a
/// header line; the content is the concatenation of the following lines with
/// line terminators removed. Both are kept as raw bytes, so non-ASCII
/// content passes through unchanged.
pub struct Record {
    pub id: Vec<u8>,
    pub content: Vec<u8>,
}

/// The mathematical shape of a record: both fields as byte sequences.
#[verifier::ext_equal]
pub ghost struct RecordV {
    pub id: Seq<u8>,
    pub content: Seq<u8>,
}

impl View for Record {
    type V = RecordV;

    open spec fn view(&self) -> RecordV {
        RecordV { id: self.id@, content: self.content@ }
    }
}

/// The views of a sequence of records.
pub open spec fn rec_views(rs: Seq<Record>) -> Seq<RecordV> {
    rs.map_values(|r: Record| r@)
}

/// The views of a sequence of strings.
pub open spec fn str_views(ss: Seq<String>) -> Seq<Seq<char>> {
    ss.map_values(|s: String| s@)
}

} // verus!
