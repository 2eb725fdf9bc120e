//! Rows and their fixed-width encoding.

use crate::layout::{copy_range, le_bytes, le_value, lemma_le_round_trip, push_bytes, push_u32, push_zeros, read_u32, zeros};
use vstd::prelude::*;

verus! {

pub const ID_SIZE: usize = 4;
pub const ID_OFFSET: usize = 0;
pub const USERNAME_SIZE_SIZE: usize = 4;
pub const USERNAME_SIZE_OFFSET: usize = 4;
/// Longest username, in bytes.
pub const USERNAME_SIZE: usize = 32;
pub const USERNAME_OFFSET: usize = 8;
pub const EMAIL_SIZE_SIZE: usize = 4;
pub const EMAIL_SIZE_OFFSET: usize = 40;
/// Longest email, in bytes.
pub const EMAIL_SIZE: usize = 255;
pub const EMAIL_OFFSET: usize = 44;
/// Bytes taken by one encoded row.
pub const ROW_SIZE: usize = 299;

/// ASCII `(`.
pub const OPEN_PAREN: u8 = 40;
/// ASCII `)`.
pub const CLOSE_PAREN: u8 = 41;
/// ASCII `,`.
pub const COMMA: u8 = 44;
/// ASCII space.
pub const SPACE: u8 = 32;
/// ASCII `0`.
pub const DIGIT_ZERO: u8 = 48;

/// One record of the table: its key and two byte strings.
#[derive(Debug, PartialEq, Eq)]
pub struct Row {
    pub id: u32,
    pub username: Vec<u8>,
    pub email: Vec<u8>,
}

/// A row's fields fit their columns.
pub open spec fn row_fits(username: Seq<u8>, email: Seq<u8>) -> bool {
    username.len() <= USERNAME_SIZE && email.len() <= EMAIL_SIZE
}

/// The fixed-width encoding of a row: the id, then each string as its length and its bytes padded
/// with zeros to the column width.
pub open spec fn row_bytes(id: u32, username: Seq<u8>, email: Seq<u8>) -> Seq<u8> {
    le_bytes(id) + le_bytes(username.len() as u32) + username + zeros(
        (USERNAME_SIZE - username.len()) as nat,
    ) + le_bytes(email.len() as u32) + email + zeros((EMAIL_SIZE - email.len()) as nat)
}

/// What an encoded row of `ROW_SIZE` bytes decodes to: none where a length field exceeds its column.
pub open spec fn row_decode(b: Seq<u8>) -> Option<(u32, Seq<u8>, Seq<u8>)> {
    let ulen = le_value(b.subrange(USERNAME_SIZE_OFFSET as int, USERNAME_OFFSET as int));
    let elen = le_value(b.subrange(EMAIL_SIZE_OFFSET as int, EMAIL_OFFSET as int));
    if ulen <= USERNAME_SIZE && elen <= EMAIL_SIZE {
        Some(
            (
                le_value(b.subrange(ID_OFFSET as int, ID_SIZE as int)),
                b.subrange(USERNAME_OFFSET as int, USERNAME_OFFSET + ulen),
                b.subrange(EMAIL_OFFSET as int, EMAIL_OFFSET + elen),
            ),
        )
    } else {
        None
    }
}

/// Decoding the encoding of a row whose strings fit their columns gives that row back.
pub proof fn lemma_row_round_trip(id: u32, username: Seq<u8>, email: Seq<u8>)
    requires
        row_fits(username, email),
    ensures
        row_bytes(id, username, email).len() == ROW_SIZE,
        row_decode(row_bytes(id, username, email)) == Some((id, username, email)),
{
    let b = row_bytes(id, username, email);
    lemma_le_round_trip(id);
    lemma_le_round_trip(username.len() as u32);
    lemma_le_round_trip(email.len() as u32);
    assert(b.subrange(0, 4) =~= le_bytes(id));
    assert(b.subrange(4, 8) =~= le_bytes(username.len() as u32));
    assert(b.subrange(8, 8 + username.len() as int) =~= username);
    assert(b.subrange(40, 44) =~= le_bytes(email.len() as u32));
    assert(b.subrange(44, 44 + email.len() as int) =~= email);
}

impl Row {
    /// The row's text as the table prints it: `(id, username, email)`.
    pub open spec fn text_spec(&self) -> Seq<u8> {
        seq![OPEN_PAREN] + decimal(self.id as nat) + seq![COMMA, SPACE] + self.username@ + seq![COMMA, SPACE]
            + self.email@ + seq![CLOSE_PAREN]
    }

    /// Prints the row as `(id, username, email)`, in bytes.
    pub fn to_text(&self) -> (r: Vec<u8>)
        ensures
            r@ == self.text_spec(),
    {
        let mut out: Vec<u8> = Vec::new();
        out.push(OPEN_PAREN);
        push_decimal(&mut out, self.id);
        out.push(COMMA);
        out.push(SPACE);
        push_bytes(&mut out, self.username.as_slice());
        out.push(COMMA);
        out.push(SPACE);
        push_bytes(&mut out, self.email.as_slice());
        out.push(CLOSE_PAREN);
        assert(out@ =~= self.text_spec());
        out
    }
}

/// Decimal digits of `n`, most significant first.
pub open spec fn decimal(n: nat) -> Seq<u8>
    decreases n,
{
    if n < 10 {
        seq![(DIGIT_ZERO + n) as u8]
    } else {
        decimal(n / 10).push((DIGIT_ZERO + n % 10) as u8)
    }
}

/// Appends the decimal digits of `n`.
pub fn push_decimal(out: &mut Vec<u8>, n: u32)
    ensures
        final(out)@ == old(out)@ + decimal(n as nat),
    decreases n,
{
    if n < 10 {
        out.push(DIGIT_ZERO + n as u8);
        assert(final(out)@ =~= old(out)@ + decimal(n as nat));
    } else {
        push_decimal(out, n / 10);
        out.push(DIGIT_ZERO + (n % 10) as u8);
        assert(final(out)@ =~= old(out)@ + decimal(n as nat));
    }
}

/// Encodes `source` into the first `ROW_SIZE` bytes of `destination`.
pub fn serialize_row(source: &Row, destination: &mut [u8])
    requires
        old(destination)@.len() == ROW_SIZE,
        row_fits(source.username@, source.email@),
    ensures
        final(destination)@ == row_bytes(source.id, source.username@, source.email@),
{
    let bytes = encode_row(source);
    let mut i: usize = 0;
    while i < ROW_SIZE
        invariant
            0 <= i <= ROW_SIZE,
            bytes@.len() == ROW_SIZE,
            destination@.len() == ROW_SIZE,
            forall|j: int| 0 <= j < i ==> destination@[j] == bytes@[j],
        decreases ROW_SIZE - i,
    {
        destination[i] = bytes[i];
        i = i + 1;
    }
    assert(destination@ =~= bytes@);
}

/// The encoding of a row, as a new vector.
pub fn encode_row(source: &Row) -> (r: Vec<u8>)
    requires
        row_fits(source.username@, source.email@),
    ensures
        r@ == row_bytes(source.id, source.username@, source.email@),
        r@.len() == ROW_SIZE,
{
    let mut out: Vec<u8> = Vec::new();
    push_u32(&mut out, source.id);
    push_u32(&mut out, source.username.len() as u32);
    push_bytes(&mut out, source.username.as_slice());
    push_zeros(&mut out, USERNAME_SIZE - source.username.len());
    push_u32(&mut out, source.email.len() as u32);
    push_bytes(&mut out, source.email.as_slice());
    push_zeros(&mut out, EMAIL_SIZE - source.email.len());
    proof {
        lemma_row_round_trip(source.id, source.username@, source.email@);
    }
    out
}

/// Decodes a row from `ROW_SIZE` bytes; none where a length field exceeds its column.
pub fn deserialize_row(source: &[u8]) -> (r: Option<Row>)
    requires
        source@.len() == ROW_SIZE,
    ensures
        match r {
            Some(row) => row_decode(source@) == Some((row.id, row.username@, row.email@)),
            None => row_decode(source@) is None,
        },
{
    let id = read_u32(source, ID_OFFSET);
    let username_size = read_u32(source, USERNAME_SIZE_OFFSET);
    let email_size = read_u32(source, EMAIL_SIZE_OFFSET);
    if username_size as usize > USERNAME_SIZE || email_size as usize > EMAIL_SIZE {
        return None;
    }
    let username = copy_range(source, USERNAME_OFFSET, username_size as usize);
    let email = copy_range(source, EMAIL_OFFSET, email_size as usize);
    Some(Row { id, username, email })
}

} // verus!
