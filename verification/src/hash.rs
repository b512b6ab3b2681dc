//! Content hashes of data and files, and sizes for people to read.

use vstd::arithmetic::power::{lemma_pow0, lemma_pow1, lemma_pow_adds, lemma_pow_positive, pow};
use vstd::arithmetic::power2::{lemma2_to64, lemma2_to64_rest, lemma_pow2_adds, lemma_pow2_pos, pow2};
use vstd::prelude::*;

use crate::binary64::{
    half_away, lemma_round53_bound, of_int, one, product, quotient, small_integers_convert_exactly,
    Binary64, FloatValue,
};
use crate::text::{decimal, digit, hex, hex32, push_decimal, text_views};

verus! {

/// The chunk size of files unless a manifest states another: 256 MiB.
pub const DEFAULT_FILE_CHUNK_SIZE: i64 = 268_435_456;

/// The chunk size that stands for hashing files whole.
pub const WHOLE_FILE_CHUNK_SIZE: i64 = -1;

/// The size of the parts of a multipart upload: 32 MiB.
pub const DEFAULT_S3_MULTIPART_PART_SIZE: usize = 33_554_432;

/// The hash algorithm of a manifest.
#[derive(Clone, Copy, Debug, PartialEq, Eq, Structural)]
pub enum HashAlgorithm {
    Xxh128,
}

impl HashAlgorithm {
    /// The name of the algorithm, which is the extension of files named by
    /// their hash.
    pub fn extension(&self) -> (r: &'static str)
        ensures
            r@ == "xxh128"@,
    {
        match self {
            HashAlgorithm::Xxh128 => "xxh128",
        }
    }

    /// The name of the algorithm.
    pub fn to_string(&self) -> (r: String)
        ensures
            r@ == "xxh128"@,
    {
        self.extension().to_owned()
    }
}

/// What `xxhash_rust::xxh3::xxh3_128` returns for an input.
pub uninterp spec fn xxh3_digest(data: Seq<u8>) -> u128;

/// `xxhash_rust::xxh3::xxh3_128`, the 128-bit XXH3 hash of an input. The result
/// is a function of the input alone.
#[verifier::external_body]
fn one_shot(data: &[u8]) -> (r: u128)
    ensures
        r == xxh3_digest(data@),
{
    xxhash_rust::xxh3::xxh3_128(data)
}

/// The state of XXH3 between pieces of an input.
#[verifier::external_type_specification]
#[verifier::external_body]
pub struct ExXxh3Default(xxhash_rust::xxh3::Xxh3Default);

/// The bytes that a hash state was fed.
pub uninterp spec fn fed_bytes(state: xxhash_rust::xxh3::Xxh3Default) -> Seq<u8>;

/// `Xxh3Default::new` of xxhash_rust: a state that was fed nothing.
#[verifier::external_body]
fn stream_new() -> (r: xxhash_rust::xxh3::Xxh3Default)
    ensures
        fed_bytes(r) == Seq::<u8>::empty(),
{
    xxhash_rust::xxh3::Xxh3Default::new()
}

/// `Xxh3Default::update` of xxhash_rust: feeds a piece of the input. The state
/// counts the bytes in 64 bits.
#[verifier::external_body]
fn stream_update(state: &mut xxhash_rust::xxh3::Xxh3Default, piece: &[u8])
    requires
        fed_bytes(*old(state)).len() + piece@.len() <= u64::MAX,
    ensures
        fed_bytes(*final(state)) == fed_bytes(*old(state)) + piece@,
{
    state.update(piece)
}

/// `Xxh3Default::digest128` of xxhash_rust: the hash of all bytes fed so far,
/// which is that of the same bytes hashed at once.
#[verifier::external_body]
fn stream_digest(state: &xxhash_rust::xxh3::Xxh3Default) -> (r: u128)
    ensures
        r == xxh3_digest(fed_bytes(*state)),
{
    state.digest128()
}

/// The text of the hash of data: 32 hexadecimal digits.
pub open spec fn hash_text(data: Seq<u8>) -> Seq<char> {
    hex(xxh3_digest(data) as nat, 32)
}

/// Hashes data.
pub fn hash_data(data: &[u8]) -> (r: String)
    ensures
        r@ == hash_text(data@),
{
    hex32(one_shot(data))
}

/// The hash of a file that is read piece by piece.
pub struct FileHasher {
    state: xxhash_rust::xxh3::Xxh3Default,
}

impl View for FileHasher {
    type V = Seq<u8>;

    closed spec fn view(&self) -> Seq<u8> {
        fed_bytes(self.state)
    }
}

impl FileHasher {
    pub fn new() -> (r: FileHasher)
        ensures
            r@ == Seq::<u8>::empty(),
    {
        FileHasher { state: stream_new() }
    }

    /// Takes the next piece of the file.
    pub fn update(&mut self, piece: &[u8])
        requires
            old(self)@.len() + piece@.len() <= u64::MAX,
        ensures
            final(self)@ == old(self)@ + piece@,
    {
        stream_update(&mut self.state, piece);
    }

    /// The hash of the pieces taken, as if they had been hashed at once.
    pub fn finish(&self) -> (r: String)
        ensures
            r@ == hash_text(self@),
    {
        hex32(stream_digest(&self.state))
    }
}

/// Why a file is not hashed in chunks.
#[derive(Debug)]
pub enum ChunkError {
    /// The chunk size is zero.
    ZeroChunkSize,
    /// The file does not have the size that was expected.
    SizeMismatch { path: String, expected: u64, actual: u64 },
}

impl ChunkError {
    /// The text of the error.
    pub open spec fn text(self) -> Seq<char> {
        match self {
            ChunkError::ZeroChunkSize => "hash_file_chunked requires chunk_size > 0"@,
            ChunkError::SizeMismatch { path, expected, actual } => "file size mismatch for "@ + path@
                + ": expected "@ + decimal(expected as nat) + ", found "@ + decimal(actual as nat),
        }
    }

    pub fn message(&self) -> (r: String)
        ensures
            r@ == self.text(),
    {
        match self {
            ChunkError::ZeroChunkSize => "hash_file_chunked requires chunk_size > 0".to_owned(),
            ChunkError::SizeMismatch { path, expected, actual } => {
                let mut out = "file size mismatch for ".to_owned();
                out.append(path.as_str());
                out.append(": expected ");
                push_decimal(&mut out, *expected);
                out.append(", found ");
                push_decimal(&mut out, *actual);
                out
            },
        }
    }
}

/// Checks that files can be cut into chunks of a size.
pub fn require_chunk_size(chunk_size: u64) -> (r: Result<(), ChunkError>)
    ensures
        match r {
            Ok(()) => chunk_size > 0,
            Err(e) => chunk_size == 0 && e is ZeroChunkSize,
        },
{
    if chunk_size == 0 {
        Err(ChunkError::ZeroChunkSize)
    } else {
        Ok(())
    }
}

/// Checks that a file has the size that a manifest states.
pub fn require_file_size(path: &str, expected: u64, actual: u64) -> (r: Result<(), ChunkError>)
    ensures
        match r {
            Ok(()) => expected == actual,
            Err(ChunkError::SizeMismatch { path: p, expected: e, actual: a }) => expected != actual
                && p@ == path@ && e == expected && a == actual,
            Err(_) => false,
        },
{
    if actual != expected {
        Err(ChunkError::SizeMismatch { path: path.to_owned(), expected, actual })
    } else {
        Ok(())
    }
}

/// The hashes of the chunks of data: all of `chunk` bytes but for the last,
/// and one of nothing where there is no data.
pub open spec fn chunk_hashes(data: Seq<u8>, chunk: nat) -> Seq<Seq<char>>
    decreases data.len(),
{
    if chunk == 0 || data.len() <= chunk {
        seq![hash_text(data)]
    } else {
        seq![hash_text(data.take(chunk as int))] + chunk_hashes(data.skip(chunk as int), chunk)
    }
}

/// The chunk hashes of a file that is read chunk by chunk.
pub struct ChunkHasher {
    chunk_size: u64,
    remaining: u64,
    hashes: Vec<String>,
    fed: Ghost<Seq<u8>>,
}

impl ChunkHasher {
    #[verifier::type_invariant]
    spec fn consistent(self) -> bool {
        &&& self.chunk_size > 0
        &&& forall|rest: Seq<u8>|
            rest.len() == self.remaining && (rest.len() > 0 || self.hashes@.len() == 0)
                ==> #[trigger] chunk_hashes(self.fed@ + rest, self.chunk_size as nat) == text_views(
                self.hashes@,
            ) + chunk_hashes(rest, self.chunk_size as nat)
        &&& self.remaining == 0 && self.hashes@.len() > 0 ==> text_views(self.hashes@) == chunk_hashes(
            self.fed@,
            self.chunk_size as nat,
        )
        &&& self.hashes@.len() == 0 ==> self.fed@.len() == 0
    }

    /// The size of the chunks.
    pub closed spec fn chunk(self) -> nat {
        self.chunk_size as nat
    }

    /// The bytes of the file that are still to be read.
    pub closed spec fn left(self) -> nat {
        self.remaining as nat
    }

    /// The bytes taken so far.
    pub closed spec fn taken(self) -> Seq<u8> {
        self.fed@
    }

    /// Starts on a file of a size.
    pub fn new(chunk_size: u64, file_size: u64) -> (r: ChunkHasher)
        requires
            chunk_size > 0,
        ensures
            r.chunk() == chunk_size,
            r.left() == file_size,
            r.taken() == Seq::<u8>::empty(),
    {
        let hashes: Vec<String> = Vec::new();
        proof {
            assert(text_views(hashes@) =~= seq![]);
            assert forall|rest: Seq<u8>| #[trigger]
                chunk_hashes(Seq::<u8>::empty() + rest, chunk_size as nat) == text_views(hashes@)
                    + chunk_hashes(rest, chunk_size as nat) by {
                assert(Seq::<u8>::empty() + rest =~= rest);
                assert(text_views(hashes@) + chunk_hashes(rest, chunk_size as nat) =~= chunk_hashes(
                    rest,
                    chunk_size as nat,
                ));
            }
        }
        ChunkHasher { chunk_size, remaining: file_size, hashes, fed: Ghost(Seq::empty()) }
    }

    /// The length of the next chunk; zero once the file is read.
    pub fn next_len(&self) -> (r: u64)
        ensures
            r == (if self.left() < self.chunk() {
                self.left()
            } else {
                self.chunk()
            }),
    {
        if self.remaining < self.chunk_size {
            self.remaining
        } else {
            self.chunk_size
        }
    }

    /// Takes the next chunk.
    pub fn push(&mut self, chunk: &[u8])
        requires
            chunk@.len() > 0,
            chunk@.len() == (if old(self).left() < old(self).chunk() {
                old(self).left()
            } else {
                old(self).chunk()
            }),
        ensures
            final(self).chunk() == old(self).chunk(),
            final(self).left() == old(self).left() - chunk@.len(),
            final(self).taken() == old(self).taken() + chunk@,
    {
        proof {
            use_type_invariant(&*self);
        }
        let hash = hash_data(chunk);
        let mut taken = ChunkHasher::new(1, 0);
        std::mem::swap(&mut taken, self);
        let mut hashes = taken.hashes;
        let ghost before = text_views(hashes@);
        let ghost fed = taken.fed@;
        let ghost size = taken.chunk_size as nat;
        let ghost piece = chunk@;
        let remaining: u64 = taken.remaining - chunk.len() as u64;
        hashes.push(hash);
        proof {
            assert(text_views(hashes@) =~= before.push(hash_text(piece)));
            assert forall|rest: Seq<u8>| rest.len() == remaining && rest.len() > 0 implies #[trigger]
                chunk_hashes(fed + piece + rest, size) == text_views(hashes@) + chunk_hashes(
                rest,
                size,
            ) by {
                let all = piece + rest;
                assert(fed + piece + rest =~= fed + all);
                assert(chunk_hashes(fed + all, size) == before + chunk_hashes(all, size));
                assert(all.take(size as int) =~= piece);
                assert(all.skip(size as int) =~= rest);
                assert(before + (seq![hash_text(piece)] + chunk_hashes(rest, size)) =~= before.push(
                    hash_text(piece),
                ) + chunk_hashes(rest, size));
            }
            if remaining == 0 {
                assert(chunk_hashes(fed + piece, size) == before + chunk_hashes(piece, size));
                assert(before + seq![hash_text(piece)] =~= before.push(hash_text(piece)));
            }
        }
        *self = ChunkHasher {
            chunk_size: taken.chunk_size,
            remaining,
            hashes,
            fed: Ghost(fed + piece),
        };
    }

    /// The hashes of the chunks of the file.
    pub fn finish(self) -> (r: Vec<String>)
        requires
            self.left() == 0,
        ensures
            text_views(r@) == chunk_hashes(self.taken(), self.chunk()),
    {
        proof {
            use_type_invariant(&self);
        }
        let mut hashes = self.hashes;
        if hashes.len() == 0 {
            let empty: Vec<u8> = Vec::new();
            let hash = hash_data(empty.as_slice());
            hashes.push(hash);
            proof {
                assert(self.fed@ =~= Seq::<u8>::empty());
                assert(text_views(hashes@) =~= seq![hash_text(Seq::<u8>::empty())]);
            }
        }
        hashes
    }
}

/// The units of a size, each a thousand times the one before.
pub open spec fn unit_name(unit: nat) -> Seq<char> {
    if unit == 0 {
        "B"@
    } else if unit == 1 {
        "KB"@
    } else if unit == 2 {
        "MB"@
    } else if unit == 3 {
        "GB"@
    } else if unit == 4 {
        "TB"@
    } else if unit == 5 {
        "PB"@
    } else {
        "EB"@
    }
}

/// `k` hundredths in decimal, without trailing zeros after the point.
pub open spec fn hundredths_text(k: nat) -> Seq<char> {
    if k % 100 == 0 {
        decimal(k / 100)
    } else if k % 10 == 0 {
        decimal(k / 100).push('.').push(digit((k / 10) % 10))
    } else {
        decimal(k / 100).push('.').push(digit((k / 10) % 10)).push(digit(k % 10))
    }
}

/// A size in hundredths, rounded half away from zero.
pub open spec fn in_hundredths(size: FloatValue) -> nat {
    half_away((product(size, of_int(100)->0)->0).magnitude)
}

/// A size in the next larger unit.
pub open spec fn in_next_unit(size: FloatValue) -> FloatValue {
    quotient(size, of_int(1000)->0)->0
}

/// A size in the first unit in which it rounds to less than a thousand.
pub open spec fn size_text(size: FloatValue, unit: nat) -> Seq<char>
    decreases 6 - unit,
{
    if unit >= 6 || in_hundredths(size) < 100_000 {
        let number = if unit == 0 {
            decimal(in_hundredths(size) / 100)
        } else {
            hundredths_text(in_hundredths(size))
        };
        number.push(' ') + unit_name(unit)
    } else {
        size_text(in_next_unit(size), unit + 1)
    }
}

fn unit_text(unit: u8) -> (r: &'static str)
    requires
        unit <= 6,
    ensures
        r@ == unit_name(unit as nat),
{
    match unit {
        0 => "B",
        1 => "KB",
        2 => "MB",
        3 => "GB",
        4 => "TB",
        5 => "PB",
        _ => "EB",
    }
}

fn push_hundredths(out: &mut String, k: u64)
    ensures
        final(out)@ == old(out)@ + hundredths_text(k as nat),
{
    push_decimal(out, k / 100);
    if k % 100 != 0 {
        out.push('.');
        out.push((48 + ((k / 10) % 10) as u8) as char);
        if k % 10 != 0 {
            out.push((48 + (k % 10) as u8) as char);
        }
    }
}

/// The bound under which sizes stay: twice 2^64 bytes.
spec fn size_bound() -> nat {
    0x2_0000_0000_0000_0000 * one()
}

/// Sizes scaled to hundredths and to the next unit stay finite.
proof fn lemma_scaled_sizes(size: FloatValue)
    requires
        !size.negative,
        size.magnitude <= size_bound(),
    ensures
        product(size, of_int(100)->0) is Some,
        quotient(size, of_int(1000)->0) matches Some(next) && !next.negative && next.magnitude * 500
            <= size.magnitude,
        (of_int(1000)->0).magnitude > 0,
        in_hundredths(size) * one() <= 200 * size.magnitude + one(),
{
    small_integers_convert_exactly(100);
    small_integers_convert_exactly(1000);
    lemma_pow2_pos(1074);
    lemma2_to64();
    lemma2_to64_rest();
    let m = size.magnitude;
    let unit = one();
    let hundred = (of_int(100)->0).magnitude;
    let thousand = (of_int(1000)->0).magnitude;
    assert(hundred == 100 * unit);
    assert(thousand == 1000 * unit);
    lemma_round53_bound(m * hundred, unit);
    lemma_round53_bound(m * unit, thousand);
    let p = crate::binary64::round53(m * hundred, unit);
    let q = crate::binary64::round53(m * unit, thousand);
    assert(p <= 200 * m) by (nonlinear_arith)
        requires
            p * unit <= 2 * (m * hundred),
            hundred == 100 * unit,
            unit > 0,
    ;
    assert(q * 500 <= m) by (nonlinear_arith)
        requires
            q * thousand <= 2 * (m * unit),
            thousand == 1000 * unit,
            unit > 0,
    ;
    lemma_pow2_adds(80, 1074);
    lemma_pow2_adds(1154, 944);
    lemma_pow2_adds(64, 16);
    lemma_pow2_pos(944);
    assert(p < pow2(2098) && q < pow2(2098)) by (nonlinear_arith)
        requires
            p <= 200 * m,
            q <= m,
            m <= 0x2_0000_0000_0000_0000 * unit,
            pow2(1154) == 0x1_0000_0000_0000_0000 * 0x1_0000 * unit,
            pow2(2098) == pow2(1154) * pow2(944),
            pow2(944) >= 1,
            unit > 0,
    ;
    vstd::arithmetic::div_mod::lemma_fundamental_div_mod(p as int, unit as int);
    let k = p / unit;
    assert((k + 1) * unit == unit * k + unit) by (nonlinear_arith);
    assert(k * unit == unit * k) by (nonlinear_arith);
}

/// A size that was divided by a thousand six times is small.
proof fn lemma_last_unit(size: FloatValue)
    requires
        size.magnitude * pow(500, 6) <= size_bound(),
        in_hundredths(size) * one() <= 200 * size.magnitude + one(),
    ensures
        in_hundredths(size) < 0x1_0000_0000_0000_0000,
{
    assert(pow(500, 6) == 15_625_000_000_000_000) by {
        reveal(pow);
        reveal_with_fuel(pow, 7);
    }
    lemma_pow2_pos(1074);
    let (m, k, unit) = (size.magnitude, in_hundredths(size), one());
    assert(k < 0x1_0000_0000_0000_0000) by (nonlinear_arith)
        requires
            m * 15_625_000_000_000_000 <= 0x2_0000_0000_0000_0000 * unit,
            k * unit <= 200 * m + unit,
            unit > 0,
    ;
}

/// Formats a number of bytes for people to read, in units of a thousand and
/// with at most two decimal places.
pub fn human_readable_file_size(bytes: u64) -> (r: String)
    ensures
        r@ == size_text(of_int(bytes as int)->0, 0),
{
    let hundred = Binary64::from_i64(100);
    let thousand = Binary64::from_i64(1000);
    let mut size = Binary64::from_u64(bytes);
    let mut unit: u8 = 0;
    proof {
        lemma_round53_bound(bytes as nat * one(), 1);
        lemma_pow2_pos(1074);
        assert(2 * (bytes as nat * one()) <= size_bound()) by (nonlinear_arith)
            requires
                bytes < 0x1_0000_0000_0000_0000,
                size_bound() == 0x2_0000_0000_0000_0000 * one(),
        ;
        lemma_pow0(500);
    }
    loop
        invariant
            unit <= 6,
            !size@.negative,
            size@.magnitude <= size_bound(),
            size@.magnitude * pow(500, unit as nat) <= size_bound(),
            Some(hundred@) == of_int(100),
            Some(thousand@) == of_int(1000),
            size_text(size@, unit as nat) == size_text(of_int(bytes as int)->0, 0),
        decreases 6 - unit,
    {
        proof {
            lemma_scaled_sizes(size@);
            if unit == 6 {
                lemma_last_unit(size@);
            }
            lemma_pow_adds(500, unit as nat, 1);
            lemma_pow1(500);
            let next = in_next_unit(size@).magnitude;
            let shrink = pow(500, unit as nat);
            lemma_pow_positive(500, unit as nat);
            assert(next * (shrink * 500) <= size@.magnitude * shrink) by (nonlinear_arith)
                requires
                    next * 500 <= size@.magnitude,
                    shrink > 0,
            ;
        }
        let hundredths: Option<u64> = match size.mul(&hundred) {
            Some(scaled) => scaled.round_magnitude(),
            None => None,
        };
        let fits = match hundredths {
            Some(k) => k < 100_000,
            None => false,
        };
        if fits || unit == 6 {
            let mut out = String::new();
            let k: u64 = match hundredths {
                Some(k) => k,
                None => 0,
            };
            if unit == 0 {
                push_decimal(&mut out, k / 100);
            } else {
                push_hundredths(&mut out, k);
            }
            out.push(' ');
            out.append(unit_text(unit));
            return out;
        }
        match size.div(&thousand) {
            Some(next) => {
                size = next;
            },
            None => {},
        }
        unit = unit + 1;
    }
}

/// The number of chunks of data.
pub open spec fn chunk_count(len: nat, chunk: nat) -> nat {
    if len <= chunk {
        1
    } else {
        1 + (len - 1) as nat / chunk
    }
}

/// Data has as many chunk hashes as chunks, and each is the hash of its own
/// chunk.
pub proof fn chunks_are_hashed_one_by_one(data: Seq<u8>, chunk: nat, i: int)
    requires
        chunk > 0,
        0 <= i < chunk_count(data.len(), chunk),
    ensures
        chunk_hashes(data, chunk).len() == chunk_count(data.len(), chunk),
        0 <= i * chunk <= data.len(),
        chunk_hashes(data, chunk)[i] == hash_text(
            data.subrange(
                i * chunk,
                if (i + 1) * chunk < data.len() {
                    (i + 1) * chunk
                } else {
                    data.len() as int
                },
            ),
        ),
    decreases data.len(),
{
    if data.len() <= chunk {
        assert(i == 0);
        assert(0 * chunk == 0 && 1 * chunk == chunk);
        assert(data.subrange(0, data.len() as int) =~= data);
    } else {
        let rest = data.skip(chunk as int);
        let c = chunk as int;
        let n = data.len() as int;
        assert(chunk_count(rest.len(), chunk) == chunk_count(data.len(), chunk) - 1) by {
            vstd::arithmetic::div_mod::lemma_div_plus_one(n - 1 - c, c);
            if rest.len() <= chunk {
                assert((n - 1 - c) / c == 0) by {
                    vstd::arithmetic::div_mod::lemma_basic_div(n - 1 - c, c);
                }
            }
        }
        assert(0 * chunk == 0 && 1 * chunk == chunk);
        if i > 0 {
            chunks_are_hashed_one_by_one(rest, chunk, i - 1);
            assert((i - 1) * c == i * c - c && i * c + c == (i + 1) * c) by (nonlinear_arith);
            let end = if (i + 1) * c < n {
                (i + 1) * c
            } else {
                n
            };
            assert(rest.subrange((i - 1) * c, end - c) =~= data.subrange(i * c, end));
        } else {
            chunks_are_hashed_one_by_one(rest, chunk, 0);
            assert(data.subrange(0, c) =~= data.take(c));
        }
    }
}

/// A hash is 32 digits long, and all of them are hexadecimal digits in lower
/// case.
pub proof fn hashes_are_hexadecimal(data: Seq<u8>, i: int)
    requires
        0 <= i < 32,
    ensures
        hash_text(data).len() == 32,
        '0' <= hash_text(data)[i] <= '9' || 'a' <= hash_text(data)[i] <= 'f',
{
    lemma_hex_digits(xxh3_digest(data) as nat, 32, i);
}

proof fn lemma_hex_digits(n: nat, width: nat, i: int)
    requires
        0 <= i < width,
    ensures
        hex(n, width).len() == width,
        '0' <= hex(n, width)[i] <= '9' || 'a' <= hex(n, width)[i] <= 'f',
    decreases width,
{
    if width > 1 {
        lemma_hex_digits(n / 16, (width - 1) as nat, if i < width - 1 { i } else { 0 });
    } else {
        assert(hex(n / 16, 0).len() == 0);
    }
}

} // verus!
