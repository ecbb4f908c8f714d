//! The header that precedes hidden data.
//!
//! magic (4), version (1), flags (1), bits per channel (1), reserved (1), salt
//! length (1), salt, nonce (12), plain length (8), cipher length (8); numbers
//! are big-endian.
use crate::bytes::{append, be_bytes, be_value, copy_range, push_be, read_be, same};
use crate::bytes::{
    lemma_be_bytes_len, lemma_be_round_trip, lemma_be_value_bound, lemma_byte_ranges,
    lemma_bytes_of_value,
};
use crate::error::{outcome, Error, ErrorView, Fault};
use crate::payload::MAGIC_V2;
use vstd::prelude::*;

verus! {

/// The length of a header without its salt.
pub const HEADER_FIXED_LEN: usize = 37;

/// A header.
#[derive(Debug)]
pub struct Header {
    pub bpc: u8,
    pub encrypted: bool,
    pub multi: bool,
    pub salt: Vec<u8>,
    pub nonce: Vec<u8>,
    pub cipher_len: usize,
    pub plain_len: usize,
    pub header_size: usize,
}

/// The mathematical view of a header.
#[verifier::ext_equal]
pub struct HeaderView {
    pub bpc: u8,
    pub encrypted: bool,
    pub multi: bool,
    pub salt: Seq<u8>,
    pub nonce: Seq<u8>,
    pub cipher_len: usize,
    pub plain_len: usize,
    pub header_size: usize,
}

impl View for Header {
    type V = HeaderView;

    open spec fn view(&self) -> HeaderView {
        HeaderView {
            bpc: self.bpc,
            encrypted: self.encrypted,
            multi: self.multi,
            salt: self.salt@,
            nonce: self.nonce@,
            cipher_len: self.cipher_len,
            plain_len: self.plain_len,
            header_size: self.header_size,
        }
    }
}

/// The flags byte: bit 0 for encrypted, bit 1 for a list of files.
pub open spec fn flags_of(encrypted: bool, multi: bool) -> u8 {
    ((if encrypted {
        1int
    } else {
        0
    }) + (if multi {
        2int
    } else {
        0
    })) as u8
}

/// A nonce cut off or filled up with zeros to `len` bytes.
pub open spec fn fixed_nonce(nonce: Seq<u8>, len: nat) -> Seq<u8> {
    Seq::new(
        len,
        |i: int|
            if i < nonce.len() {
                nonce[i]
            } else {
                0
            },
    )
}

/// The bytes of a header.
pub open spec fn header_bytes(
    bpc: u8,
    encrypted: bool,
    multi: bool,
    salt: Seq<u8>,
    nonce: Seq<u8>,
    cipher_len: nat,
    plain_len: nat,
) -> Seq<u8> {
    MAGIC_V2@ + seq![1u8, flags_of(encrypted, multi), bpc, 0, (salt.len() % 256) as u8] + salt
        + fixed_nonce(nonce, 12) + be_bytes(plain_len, 8) + be_bytes(cipher_len, 8)
}

/// The header at the start of `buf`, or why there is none.
pub open spec fn parsed_header(buf: Seq<u8>) -> Result<HeaderView, ErrorView> {
    let salt_end = 9 + buf[8];
    if buf.len() < HEADER_FIXED_LEN {
        Err(Fault::HeaderTooSmall)
    } else if buf.subrange(0, 4) != MAGIC_V2@ {
        Err(Fault::BadMagic)
    } else if buf[4] != 1 {
        Err(Fault::UnsupportedVersion { version: buf[4] })
    } else if buf.len() < salt_end + 28 {
        Err(Fault::HeaderTruncated)
    } else {
        Ok(
            HeaderView {
                bpc: buf[6],
                encrypted: buf[5] % 2 == 1,
                multi: (buf[5] / 2) % 2 == 1,
                salt: buf.subrange(9, salt_end),
                nonce: buf.subrange(salt_end, salt_end + 12),
                plain_len: be_value(buf.subrange(salt_end + 12, salt_end + 20)) as usize,
                cipher_len: be_value(buf.subrange(salt_end + 20, salt_end + 28)) as usize,
                header_size: (salt_end + 28) as usize,
            },
        )
    }
}

/// The nonce field: `nonce` cut off or filled up with zeros to `len` bytes.
pub fn fix_nonce(nonce: &[u8], len: usize) -> (out: Vec<u8>)
    ensures
        out@ == fixed_nonce(nonce@, len as nat),
{
    let mut out: Vec<u8> = Vec::new();
    while out.len() < len
        invariant
            out@.len() <= len,
            forall|i: int|
                0 <= i < out@.len() ==> out@[i] == fixed_nonce(nonce@, len as nat)[i],
        decreases len - out.len(),
    {
        let k: usize = out.len();
        if k < nonce.len() {
            out.push(nonce[k]);
        } else {
            out.push(0);
        }
    }
    assert(out@ =~= fixed_nonce(nonce@, len as nat));
    out
}

/// Writes a header.
pub fn build_header(
    bpc: u8,
    encrypted: bool,
    multi: bool,
    salt: &[u8],
    nonce: &[u8],
    cipher_len: usize,
    plain_len: usize,
) -> (buf: Vec<u8>)
    ensures
        buf@ == header_bytes(
            bpc,
            encrypted,
            multi,
            salt@,
            nonce@,
            cipher_len as nat,
            plain_len as nat,
        ),
{
    let mut buf: Vec<u8> = Vec::new();
    append(&mut buf, &MAGIC_V2);
    buf.push(0x01);
    let mut flags: u8 = 0;
    if encrypted {
        flags = flags + 1;
    }
    if multi {
        flags = flags + 2;
    }
    buf.push(flags);
    buf.push(bpc);
    buf.push(0);
    buf.push((salt.len() % 256) as u8);
    assert(buf@ =~= MAGIC_V2@ + seq![
        1u8,
        flags_of(encrypted, multi),
        bpc,
        0,
        (salt@.len() % 256) as u8,
    ]);
    append(&mut buf, salt);
    let fixed: Vec<u8> = fix_nonce(nonce, 12);
    append(&mut buf, fixed.as_slice());
    push_be(&mut buf, plain_len as u64, 8);
    push_be(&mut buf, cipher_len as u64, 8);
    buf
}

/// Reads the header at the start of `buf`.
pub fn parse_header(buf: &[u8]) -> (out: Result<Header, Error>)
    ensures
        outcome(out) == parsed_header(buf@),
{
    if buf.len() < HEADER_FIXED_LEN {
        return Err(Fault::HeaderTooSmall);
    }
    let magic: Vec<u8> = copy_range(buf, 0, 4);
    if !same(magic.as_slice(), &MAGIC_V2) {
        return Err(Fault::BadMagic);
    }
    let version: u8 = buf[4];
    if version != 0x01 {
        return Err(Fault::UnsupportedVersion { version });
    }
    let flags: u8 = buf[5];
    let salt_end: usize = 9 + buf[8] as usize;
    if buf.len() < salt_end + 28 {
        return Err(Fault::HeaderTruncated);
    }
    let header = Header {
        bpc: buf[6],
        encrypted: flags % 2 == 1,
        multi: (flags / 2) % 2 == 1,
        salt: copy_range(buf, 9, salt_end),
        nonce: copy_range(buf, salt_end, salt_end + 12),
        plain_len: read_be(buf, salt_end + 12, 8) as usize,
        cipher_len: read_be(buf, salt_end + 20, 8) as usize,
        header_size: salt_end + 28,
    };
    assert(header@ =~= parsed_header(buf@)->Ok_0);
    Ok(header)
}

/// The length of a header is its fixed part and its salt.
pub proof fn lemma_header_len(
    bpc: u8,
    encrypted: bool,
    multi: bool,
    salt: Seq<u8>,
    nonce: Seq<u8>,
    cipher_len: nat,
    plain_len: nat,
)
    ensures
        header_bytes(bpc, encrypted, multi, salt, nonce, cipher_len, plain_len).len()
            == HEADER_FIXED_LEN + salt.len(),
{
    lemma_be_bytes_len(plain_len, 8);
    lemma_be_bytes_len(cipher_len, 8);
}

/// Reading a written header gives back what was written, whatever follows it.
/// The nonce comes back in its twelve byte field. A salt of more than 255 bytes
/// does not fit its length field.
pub proof fn law_header_round_trip(
    bpc: u8,
    encrypted: bool,
    multi: bool,
    salt: Seq<u8>,
    nonce: Seq<u8>,
    cipher_len: usize,
    plain_len: usize,
    rest: Seq<u8>,
)
    requires
        salt.len() <= 255,
    ensures
        parsed_header(
            header_bytes(
                bpc,
                encrypted,
                multi,
                salt,
                nonce,
                cipher_len as nat,
                plain_len as nat,
            ) + rest,
        ) == Ok::<HeaderView, ErrorView>(
            HeaderView {
                bpc,
                encrypted,
                multi,
                salt,
                nonce: fixed_nonce(nonce, 12),
                cipher_len,
                plain_len,
                header_size: (HEADER_FIXED_LEN + salt.len()) as usize,
            },
        ),
{
    let head = header_bytes(
        bpc,
        encrypted,
        multi,
        salt,
        nonce,
        cipher_len as nat,
        plain_len as nat,
    );
    let buf = head + rest;
    let salt_end: int = 9 + salt.len() as int;
    lemma_byte_ranges();
    lemma_be_round_trip(plain_len as nat, 8);
    lemma_be_round_trip(cipher_len as nat, 8);
    assert(buf[8] as int == salt.len());
    assert(buf.subrange(0, 4) =~= MAGIC_V2@);
    assert(buf.subrange(9, salt_end) =~= salt);
    assert(buf.subrange(salt_end, salt_end + 12) =~= fixed_nonce(nonce, 12));
    assert(buf.subrange(salt_end + 12, salt_end + 20) =~= be_bytes(plain_len as nat, 8));
    assert(buf.subrange(salt_end + 20, salt_end + 28) =~= be_bytes(cipher_len as nat, 8));
}

/// Where the fields of a header lie: magic `F2L2`, version 1, a flag for encryption and
/// one for a list of files, the bits per channel, a zero, the length of the salt, the
/// salt, twelve bytes of nonce, the plain length and the cipher length.
pub proof fn law_header_layout(
    bpc: u8,
    encrypted: bool,
    multi: bool,
    salt: Seq<u8>,
    nonce: Seq<u8>,
    cipher_len: nat,
    plain_len: nat,
)
    requires
        cipher_len <= u64::MAX,
        plain_len <= u64::MAX,
    ensures
        ({
            let head = header_bytes(bpc, encrypted, multi, salt, nonce, cipher_len, plain_len);
            let s = salt.len() as int;
            &&& head.len() == 37 + s
            &&& head.subrange(0, 5) == seq![0x46u8, 0x32, 0x4c, 0x32, 1]
            &&& head[5] % 2 == 1 <==> encrypted
            &&& head[5] / 2 == 1 <==> multi
            &&& head[5] <= 3
            &&& head[6] == bpc
            &&& head[7] == 0
            &&& head[8] as int == s % 256
            &&& head.subrange(9, 9 + s) == salt
            &&& forall|i: int|
                0 <= i < 12 ==> #[trigger] head[9 + s + i] == (if i < nonce.len() {
                    nonce[i]
                } else {
                    0
                })
            &&& be_value(head.subrange(21 + s, 29 + s)) == plain_len
            &&& be_value(head.subrange(29 + s, 37 + s)) == cipher_len
        }),
{
    let head = header_bytes(bpc, encrypted, multi, salt, nonce, cipher_len, plain_len);
    let s = salt.len() as int;
    lemma_byte_ranges();
    lemma_be_round_trip(plain_len, 8);
    lemma_be_round_trip(cipher_len, 8);
    assert(head.subrange(0, 5) =~= seq![0x46u8, 0x32, 0x4c, 0x32, 1]);
    assert(head.subrange(9, 9 + s) =~= salt);
    assert forall|i: int| 0 <= i < 12 implies #[trigger] head[9 + s + i] == (if i < nonce.len() {
        nonce[i]
    } else {
        0
    }) by {
        assert(head[9 + s + i] == fixed_nonce(nonce, 12)[i]);
    }
    assert(head.subrange(21 + s, 29 + s) =~= be_bytes(plain_len, 8));
    assert(head.subrange(29 + s, 37 + s) =~= be_bytes(cipher_len, 8));
}

/// Bytes are read as a header exactly where they start like one and are long enough,
/// and the answer says what is wrong with others.
pub proof fn law_headers_are_told_apart(buf: Seq<u8>)
    ensures
        ({
            let starts = buf.subrange(0, 4) == seq![0x46u8, 0x32, 0x4c, 0x32];
            let out = parsed_header(buf);
            if buf.len() < 37 {
                out == Err::<HeaderView, ErrorView>(Fault::HeaderTooSmall)
            } else if !starts {
                out == Err::<HeaderView, ErrorView>(Fault::BadMagic)
            } else if buf[4] != 1 {
                out == Err::<HeaderView, ErrorView>(Fault::UnsupportedVersion { version: buf[4] })
            } else if buf.len() < 37 + buf[8] {
                out == Err::<HeaderView, ErrorView>(Fault::HeaderTruncated)
            } else {
                out is Ok && out->Ok_0.header_size == 37 + buf[8] && out->Ok_0.salt
                    == buf.subrange(9, 9 + buf[8])
            }
        }),
{
    assert(MAGIC_V2@ =~= seq![0x46u8, 0x32, 0x4c, 0x32]);
}

/// A header that is read says what stands in its bytes: written again, it gives them
/// back, but for flags that mean nothing and the reserved byte.
pub proof fn law_header_says_what_it_holds(buf: Seq<u8>)
    requires
        parsed_header(buf) is Ok,
        usize::MAX == u64::MAX,
    ensures
        ({
            let h = parsed_header(buf)->Ok_0;
            let again = header_bytes(
                h.bpc,
                h.encrypted,
                h.multi,
                h.salt,
                h.nonce,
                h.cipher_len as nat,
                h.plain_len as nat,
            );
            &&& again.len() == h.header_size <= buf.len()
            &&& forall|i: int|
                0 <= i < again.len() && i != 5 && i != 7 ==> #[trigger] again[i] == buf[i]
            &&& again[5] == buf[5] % 4
        }),
{
    let h = parsed_header(buf)->Ok_0;
    let end: int = 9 + buf[8] as int;
    let (plain, cipher) = (buf.subrange(end + 12, end + 20), buf.subrange(end + 20, end + 28));
    lemma_be_value_bound(plain);
    lemma_be_value_bound(cipher);
    lemma_byte_ranges();
    lemma_bytes_of_value(plain);
    lemma_bytes_of_value(cipher);
    let again = header_bytes(
        h.bpc,
        h.encrypted,
        h.multi,
        h.salt,
        h.nonce,
        h.cipher_len as nat,
        h.plain_len as nat,
    );
    assert(fixed_nonce(h.nonce, 12) =~= h.nonce);
    assert forall|i: int| 0 <= i < again.len() && i != 5 && i != 7 implies #[trigger] again[i]
        == buf[i] by {
        if i < 4 {
            assert(buf.subrange(0, 4)[i] == buf[i]);
        } else if i >= end + 20 {
            assert(again[i] == be_bytes(h.cipher_len as nat, 8)[i - end - 20]);
            assert(cipher[i - end - 20] == buf[i]);
        } else if i >= end + 12 {
            assert(again[i] == be_bytes(h.plain_len as nat, 8)[i - end - 12]);
            assert(plain[i - end - 12] == buf[i]);
        }
    }
}

/// A header in memory says what its fields hold.
pub proof fn law_header_in_memory(h: Header)
    ensures
        h@ == (HeaderView {
            bpc: h.bpc,
            encrypted: h.encrypted,
            multi: h.multi,
            salt: h.salt@,
            nonce: h.nonce@,
            cipher_len: h.cipher_len,
            plain_len: h.plain_len,
            header_size: h.header_size,
        }),
{
}

} // verus!
