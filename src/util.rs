use vstd::prelude::*;

verus! {

/// Number of bytes in a content digest.
pub const HASH_LEN: usize = 32;

/// A modification time, as seconds and nanoseconds since the Unix epoch.
#[derive(Clone, Copy, Debug, PartialEq, Eq, Structural)]
pub struct MTime {
    pub sec: u64,
    pub nano: u32,
}

impl MTime {
    /// The instant as a count of nanoseconds; a `nano` past one second carries
    /// into the seconds, as with `Duration::new`.
    pub open spec fn nanos(self) -> int {
        self.sec * 1_000_000_000 + self.nano
    }

    pub fn new(sec: u64, nano: u32) -> (r: MTime)
        ensures
            r.sec == sec,
            r.nano == nano,
    {
        MTime { sec, nano }
    }

    /// Whether `self` is the same instant as `other` or an earlier one.
    pub fn not_after(&self, other: &MTime) -> (r: bool)
        ensures
            r == (self.nanos() <= other.nanos()),
    {
        let a: u128 = self.sec as u128 * 1_000_000_000u128 + self.nano as u128;
        let b: u128 = other.sec as u128 * 1_000_000_000u128 + other.nano as u128;
        a <= b
    }
}

/// A content digest (BLAKE3, 32 bytes).
#[derive(Clone, Copy, Debug)]
pub struct Hash {
    bytes: [u8; 32],
}

/// The lowercase hexadecimal digit of a value below 16.
pub open spec fn hex_digit(n: int) -> char {
    if n < 10 {
        if n < 5 {
            if n == 0 { '0' } else if n == 1 { '1' } else if n == 2 { '2' } else if n == 3 { '3' } else { '4' }
        } else {
            if n == 5 { '5' } else if n == 6 { '6' } else if n == 7 { '7' } else if n == 8 { '8' } else { '9' }
        }
    } else {
        if n == 10 { 'a' } else if n == 11 { 'b' } else if n == 12 { 'c' } else if n == 13 { 'd' } else if n == 14 { 'e' } else { 'f' }
    }
}

/// Lowercase hexadecimal text of a byte string: two digits per byte, high
/// nibble first.
pub open spec fn hex_text(b: Seq<u8>) -> Seq<char> {
    Seq::new(
        2 * b.len(),
        |i: int| if i % 2 == 0 { hex_digit(b[i / 2] as int / 16) } else { hex_digit(b[i / 2] as int % 16) },
    )
}

/// The bucket of a digest in a table keyed by digest: its first four bytes,
/// little-endian.
pub open spec fn bucket_of(h: Seq<u8>) -> u32 {
    (h[0] as int + h[1] as int * 256 + h[2] as int * 65536 + h[3] as int * 16777216) as u32
}

impl View for Hash {
    type V = Seq<u8>;

    closed spec fn view(&self) -> Seq<u8> {
        self.bytes@
    }
}

/// The value of a hexadecimal digit of either case, or -1 for another
/// character.
pub open spec fn hex_value(c: char) -> int {
    let u = c as u32 as int;
    if 48 <= u <= 57 {
        u - 48
    } else if 97 <= u <= 102 {
        u - 87
    } else if 65 <= u <= 70 {
        u - 55
    } else {
        -1
    }
}

/// Whether `s` is the hexadecimal text of a digest: 64 hexadecimal digits of
/// either case.
pub open spec fn is_digest_hex(s: Seq<char>) -> bool {
    s.len() == 2 * HASH_LEN && forall|i: int| 0 <= i < s.len() ==> hex_value(#[trigger] s[i]) >= 0
}

/// The bytes that hexadecimal text stands for, two digits per byte, high
/// nibble first.
pub open spec fn hex_bytes(s: Seq<char>) -> Seq<u8> {
    Seq::new(s.len() / 2, |i: int| (hex_value(s[2 * i]) * 16 + hex_value(s[2 * i + 1])) as u8)
}

/// Reading back the hexadecimal text of a byte string gives the bytes.
pub proof fn lemma_hex_round_trip(b: Seq<u8>)
    ensures
        b.len() == HASH_LEN ==> is_digest_hex(hex_text(b)),
        hex_bytes(hex_text(b)) == b,
{
    let t = hex_text(b);
    assert forall|n: int| 0 <= n < 16 implies hex_value(#[trigger] hex_digit(n)) == n by {
    }
    assert forall|i: int| 0 <= i < t.len() implies hex_value(#[trigger] t[i]) >= 0 by {
        assert(0 <= b[i / 2] as int / 16 < 16);
        assert(0 <= b[i / 2] as int % 16 < 16);
    }
    assert forall|i: int| 0 <= i < b.len() implies #[trigger] hex_bytes(t)[i] == b[i] by {
        assert(t[2 * i] == hex_digit(b[i] as int / 16));
        assert(t[2 * i + 1] == hex_digit(b[i] as int % 16));
        assert((b[i] as int / 16) * 16 + b[i] as int % 16 == b[i] as int);
    }
    assert(hex_bytes(t) =~= b);
}

/// Relies on `blake3::Hash::from_hex`: it accepts exactly 64 hexadecimal
/// digits of either case and decodes them two per byte, high nibble first.
#[verifier::external_body]
fn blake3_from_hex(s: &str) -> (r: Option<[u8; 32]>)
    ensures
        match r {
            Some(b) => is_digest_hex(s@) && b@ == hex_bytes(s@),
            None => !is_digest_hex(s@),
        },
{
    match blake3::Hash::from_hex(s) {
        Ok(h) => Some(*h.as_bytes()),
        Err(_) => None,
    }
}

/// Relies on `blake3::Hash::to_hex`: lowercase hexadecimal, two digits per
/// byte, high nibble first.
#[verifier::external_body]
fn blake3_hex(bytes: [u8; 32]) -> (r: String)
    ensures
        r@ == hex_text(bytes@),
{
    blake3::Hash::from_bytes(bytes).to_hex().as_str().to_string()
}

/// Relies on `blake3::Hasher::update_mmap` and `finalize`: the digest of the
/// file's bytes as they are on disk at the time of the call, or the text of
/// the I/O error that stopped the read.
#[verifier::external_body]
fn blake3_of_file(path: &str) -> (r: Result<[u8; 32], String>) {
    match blake3::Hasher::new().update_mmap(path) {
        Ok(hasher) => Ok(*hasher.finalize().as_bytes()),
        Err(e) => Err(e.to_string()),
    }
}

impl Hash {
    pub fn from_bytes(bytes: [u8; 32]) -> (r: Hash)
        ensures
            r@ == bytes@,
    {
        Hash { bytes }
    }

    pub fn to_bytes(&self) -> (r: [u8; 32])
        ensures
            r@ == self@,
    {
        self.bytes
    }

    /// Byte-wise equality of two digests.
    pub fn same(&self, other: &Hash) -> (r: bool)
        ensures
            r == (self@ == other@),
    {
        let mut i: usize = 0;
        while i < HASH_LEN
            invariant
                i <= HASH_LEN,
                self@.len() == HASH_LEN,
                other@.len() == HASH_LEN,
                forall|j: int| 0 <= j < i ==> self@[j] == other@[j],
            decreases HASH_LEN - i,
        {
            if self.bytes[i] != other.bytes[i] {
                return false;
            }
            i = i + 1;
        }
        assert(self@ =~= other@);
        true
    }

    /// Every digest has 32 bytes.
    pub proof fn lemma_len(&self)
        ensures
            self@.len() == HASH_LEN,
    {
    }

    /// The bucket of this digest.
    pub fn bucket(&self) -> (r: u32)
        ensures
            r == bucket_of(self@),
    {
        self.bytes[0] as u32 + self.bytes[1] as u32 * 256 + self.bytes[2] as u32 * 65536
            + self.bytes[3] as u32 * 16777216
    }

    /// The lowercase hexadecimal text of the digest (64 characters).
    pub fn to_hex(&self) -> (r: String)
        ensures
            r@ == hex_text(self@),
            r@.len() == 2 * HASH_LEN,
    {
        blake3_hex(self.bytes)
    }

    /// The digest written as `s`: 64 hexadecimal digits of either case.
    pub fn from_hex(s: &str) -> (r: Option<Hash>)
        ensures
            match r {
                Some(h) => is_digest_hex(s@) && h@ == hex_bytes(s@),
                None => !is_digest_hex(s@),
            },
    {
        match blake3_from_hex(s) {
            Some(bytes) => Some(Hash { bytes }),
            None => None,
        }
    }

    /// The BLAKE3 digest of the file at `path`, read now; `Err` holds the text
    /// of the I/O error.  The result depends on the disk, so nothing is stated
    /// of it.
    pub fn of_file(path: &str) -> (r: Result<Hash, String>) {
        match blake3_of_file(path) {
            Ok(bytes) => Ok(Hash { bytes }),
            Err(e) => Err(e),
        }
    }
}

} // verus!
