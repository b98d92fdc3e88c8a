//! The tagged envelope around every stored value: one tag byte, then the
//! payload.
use vstd::prelude::*;

verus! {

/// The kind of container a stored value belongs to.
#[derive(PartialEq, Eq, Structural, Clone, Copy, Debug)]
pub enum Tag {
    Blob,
    Table,
    List,
}

/// The byte that stands for a tag.
pub open spec fn tag_byte(t: Tag) -> u8 {
    match t {
        Tag::Blob => 0,
        Tag::Table => 1,
        Tag::List => 2,
    }
}

/// Why stored bytes are no record.
#[derive(PartialEq, Eq, Structural, Clone, Copy, Debug)]
pub enum RecordError {
    EmptyInput,
    BadTag,
}

/// The tag that a byte stands for.
pub open spec fn tag_of_byte(b: u8) -> Option<Tag> {
    if b == 0 {
        Some(Tag::Blob)
    } else if b == 1 {
        Some(Tag::Table)
    } else if b == 2 {
        Some(Tag::List)
    } else {
        None
    }
}

/// The wire bytes of a record.
pub open spec fn record_bytes(t: Tag, payload: Seq<u8>) -> Seq<u8> {
    seq![tag_byte(t)] + payload
}

/// What stored bytes decode to.
pub open spec fn parse_record(raw: Seq<u8>) -> Result<(Tag, Seq<u8>), RecordError> {
    if raw.len() == 0 {
        Err(RecordError::EmptyInput)
    } else {
        match tag_of_byte(raw[0]) {
            Some(t) => Ok((t, raw.subrange(1, raw.len() as int))),
            None => Err(RecordError::BadTag),
        }
    }
}

/// The payload of stored bytes that decode to a record tagged `t`.
pub open spec fn tagged_payload(raw: Seq<u8>, t: Tag) -> Option<Seq<u8>> {
    match parse_record(raw) {
        Ok((t2, p)) => if t2 == t {
            Some(p)
        } else {
            None
        },
        Err(_) => None,
    }
}

/// Decoding the wire bytes of a record gives it back.
pub proof fn lemma_parse_record_bytes(t: Tag, payload: Seq<u8>)
    ensures
        parse_record(record_bytes(t, payload)) == Ok::<(Tag, Seq<u8>), RecordError>((t, payload)),
{
    assert(record_bytes(t, payload).subrange(1, record_bytes(t, payload).len() as int)
        =~= payload);
}

/// A tagged value: either the wire bytes as read (tag byte first) or the tag
/// and the payload held apart, as written.
#[derive(Clone, Debug)]
pub enum Record {
    FromRaw(Tag, Vec<u8>),
    FromData(Tag, Vec<u8>),
}

impl Record {
    /// Wire bytes held as read begin with the byte of the tag.
    pub open spec fn wf(&self) -> bool {
        match self {
            Record::FromRaw(t, raw) => raw@.len() >= 1 && raw@[0] == tag_byte(*t),
            Record::FromData(_, _) => true,
        }
    }

    pub open spec fn tag_spec(&self) -> Tag {
        match self {
            Record::FromRaw(t, _) => *t,
            Record::FromData(t, _) => *t,
        }
    }

    pub open spec fn payload(&self) -> Seq<u8> {
        match self {
            Record::FromRaw(_, raw) => raw@.subrange(1, raw@.len() as int),
            Record::FromData(_, data) => data@,
        }
    }

    pub fn tag(&self) -> (r: Tag)
        ensures
            r == self.tag_spec(),
    {
        match self {
            Record::FromRaw(tag, _) => *tag,
            Record::FromData(tag, _) => *tag,
        }
    }

    /// A copy of the payload.
    pub fn data(&self) -> (r: Vec<u8>)
        requires
            self.wf(),
        ensures
            r@ == self.payload(),
    {
        match self {
            Record::FromRaw(_, iv) => {
                let mut out: Vec<u8> = Vec::with_capacity(iv.len() - 1);
                let mut i: usize = 1;
                while i < iv.len()
                    invariant
                        1 <= i <= iv@.len(),
                        out@ == iv@.subrange(1, i as int),
                    decreases iv@.len() - i,
                {
                    out.push(iv[i]);
                    assert(iv@.subrange(1, i + 1) =~= iv@.subrange(1, i as int).push(iv@[i as int]));
                    i += 1;
                }
                out
            },
            Record::FromData(_, iv) => iv.clone(),
        }
    }

    /// The wire bytes: the tag byte, then the payload.
    pub fn into_raw(self) -> (r: Vec<u8>)
        requires
            self.wf(),
        ensures
            r@ == record_bytes(self.tag_spec(), self.payload()),
    {
        match self {
            Record::FromRaw(_, iv) => {
                assert(iv@ =~= record_bytes(self.tag_spec(), self.payload()));
                iv
            },
            Record::FromData(tag, iv) => {
                let mut out: Vec<u8> = Vec::with_capacity(iv.len());
                out.push(tag_to_byte(tag));
                let mut i: usize = 0;
                while i < iv.len()
                    invariant
                        i <= iv@.len(),
                        out@ == seq![tag_byte(tag)] + iv@.subrange(0, i as int),
                    decreases iv@.len() - i,
                {
                    out.push(iv[i]);
                    assert(iv@.subrange(0, i + 1) =~= iv@.subrange(0, i as int).push(iv@[i as int]));
                    i += 1;
                }
                assert(iv@.subrange(0, iv@.len() as int) =~= iv@);
                out
            },
        }
    }

    /// Reads wire bytes: the first byte must name a tag.
    pub fn decode(iv: Vec<u8>) -> (r: Result<Record, RecordError>)
        ensures
            match parse_record(iv@) {
                Ok((t, p)) => r is Ok && r->Ok_0.wf() && r->Ok_0.tag_spec() == t
                    && r->Ok_0.payload() == p,
                Err(e) => r == Err::<Record, RecordError>(e),
            },
    {
        if iv.len() == 0 {
            return Err(RecordError::EmptyInput);
        }
        match tag_from_byte(iv[0]) {
            Ok(tag) => Ok(Record::FromRaw(tag, iv)),
            Err(e) => Err(e),
        }
    }
}

fn tag_to_byte(t: Tag) -> (r: u8)
    ensures
        r == tag_byte(t),
{
    match t {
        Tag::Blob => 0,
        Tag::Table => 1,
        Tag::List => 2,
    }
}

/// The tag that a byte stands for, or `BadTag`.
pub fn tag_from_byte(inp: u8) -> (r: Result<Tag, RecordError>)
    ensures
        match tag_of_byte(inp) {
            Some(t) => r == Ok::<Tag, RecordError>(t),
            None => r == Err::<Tag, RecordError>(RecordError::BadTag),
        },
{
    match inp {
        0 => Ok(Tag::Blob),
        1 => Ok(Tag::Table),
        2 => Ok(Tag::List),
        _ => Err(RecordError::BadTag),
    }
}

} // verus!
