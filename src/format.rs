//! The fingerprint file header and metadata records.
use vstd::prelude::*;

verus! {

/// The first bytes of a fingerprint file: "FPAN".
pub const MAGIC: [u8; 4] = [0x46, 0x50, 0x41, 0x4E];

/// The format version written by this library.
pub const VERSION: u16 = 1;

/// Bit 0 of the header flags: the payload is compressed.
pub const FLAG_COMPRESSED: u16 = 1;

/// Fixed-size file header.
#[derive(Clone, Copy, Debug)]
pub struct FpHeader {
    pub magic: [u8; 4],
    pub version: u16,
    pub flags: u16,
    pub metadata_size: u64,
    pub payload_size: u64,
    pub payload_size_compressed: u64,
    pub num_fingerprints: u32,
    pub sample_rate: u32,
    pub duration_ms: u32,
    pub channels: u16,
    pub reserved1: u16,
    pub checksum: u64,
    pub reserved2: u64,
}

impl FpHeader {
    pub fn new(
        metadata_size: u64,
        payload_size: u64,
        num_fingerprints: u32,
        sample_rate: u32,
        duration_ms: u32,
        channels: u16,
    ) -> (r: FpHeader)
        ensures
            r.magic@ == MAGIC@,
            r.version == VERSION,
            r.flags == 0,
            r.metadata_size == metadata_size,
            r.payload_size == payload_size,
            r.payload_size_compressed == 0,
            r.num_fingerprints == num_fingerprints,
            r.sample_rate == sample_rate,
            r.duration_ms == duration_ms,
            r.channels == channels,
            r.reserved1 == 0,
            r.checksum == 0,
            r.reserved2 == 0,
    {
        FpHeader {
            magic: MAGIC,
            version: VERSION,
            flags: 0,
            metadata_size,
            payload_size,
            payload_size_compressed: 0,
            num_fingerprints,
            sample_rate,
            duration_ms,
            channels,
            reserved1: 0,
            checksum: 0,
            reserved2: 0,
        }
    }

    /// Bit 0 of the flags is set.
    pub open spec fn compressed(&self) -> bool {
        self.flags & FLAG_COMPRESSED != 0
    }

    pub fn is_compressed(&self) -> (r: bool)
        ensures
            r == self.compressed(),
    {
        (self.flags & FLAG_COMPRESSED) != 0
    }

    /// Sets or clears bit 0 of the flags, keeping the other bits.
    pub fn set_compressed(&mut self, compressed: bool)
        ensures
            final(self).compressed() == compressed,
            final(self).flags & 0xFFFE == old(self).flags & 0xFFFE,
            final(self).magic == old(self).magic,
            final(self).version == old(self).version,
            final(self).metadata_size == old(self).metadata_size,
            final(self).payload_size == old(self).payload_size,
            final(self).payload_size_compressed == old(self).payload_size_compressed,
            final(self).num_fingerprints == old(self).num_fingerprints,
            final(self).sample_rate == old(self).sample_rate,
            final(self).duration_ms == old(self).duration_ms,
            final(self).channels == old(self).channels,
            final(self).checksum == old(self).checksum,
            final(self).reserved1 == old(self).reserved1,
            final(self).reserved2 == old(self).reserved2,
    {
        let f = self.flags;
        if compressed {
            self.flags = f | FLAG_COMPRESSED;
            assert((f | 1u16) & 1u16 != 0 && (f | 1u16) & 0xFFFEu16 == f & 0xFFFEu16) by (bit_vector);
        } else {
            self.flags = f & !FLAG_COMPRESSED;
            assert((f & !1u16) & 1u16 == 0 && (f & !1u16) & 0xFFFEu16 == f & 0xFFFEu16) by (bit_vector);
        }
    }
}

/// How a recording was cut into segments.
#[derive(Clone, Debug)]
pub struct SegmentationInfo {
    pub num_segments: usize,
    pub segment_duration_ms: u32,
    pub overlap_duration_ms: u32,
    pub segments: Vec<SegmentMetadata>,
}

/// One segment of a recording and where its fingerprints start.
#[derive(Clone, Copy, Debug, PartialEq, Eq, Structural)]
pub struct SegmentMetadata {
    pub segment_id: usize,
    pub start_time_ms: u32,
    pub end_time_ms: u32,
    pub num_fingerprints: u32,
    pub fingerprint_offset: u32,
}

/// The metadata section of a fingerprint file.
#[derive(Clone, Debug)]
pub struct FpMetadata {
    pub algorithm_id: String,
    pub algorithm_params: String,
    pub original_filename: String,
    pub segmentation: Option<SegmentationInfo>,
}

/// `256^n`.
pub open spec fn p256(n: nat) -> nat
    decreases n,
{
    if n == 0 {
        1
    } else {
        256 * p256((n - 1) as nat)
    }
}

/// The `n` little-endian bytes of `x` (its low `8 n` bits).
pub open spec fn le(x: nat, n: nat) -> Seq<u8>
    decreases n,
{
    if n == 0 {
        Seq::empty()
    } else {
        seq![(x % 256) as u8] + le(x / 256, (n - 1) as nat)
    }
}

/// The number that little-endian bytes spell.
pub open spec fn from_le(s: Seq<u8>) -> nat
    decreases s.len(),
{
    if s.len() == 0 {
        0
    } else {
        (s[0] + 256 * from_le(s.drop_first())) as nat
    }
}

/// The header as written: each field little-endian, 64 bytes in all.
pub open spec fn header_bytes(h: FpHeader) -> Seq<u8> {
    h.magic@ + le(h.version as nat, 2) + le(h.flags as nat, 2) + le(h.metadata_size as nat, 8) + le(
        h.payload_size as nat,
        8,
    ) + le(h.payload_size_compressed as nat, 8) + le(h.num_fingerprints as nat, 4) + le(
        h.sample_rate as nat,
        4,
    ) + le(h.duration_ms as nat, 4) + le(h.channels as nat, 2) + le(h.reserved1 as nat, 2) + le(
        h.checksum as nat,
        8,
    ) + le(h.reserved2 as nat, 8)
}

proof fn lemma_le_len(x: nat, n: nat)
    ensures
        le(x, n).len() == n,
    decreases n,
{
    if n > 0 {
        lemma_le_len(x / 256, (n - 1) as nat);
    }
}

/// Reading back what was written: a number below `256^n` survives its
/// `n` little-endian bytes.
pub proof fn le_round_trip(x: nat, n: nat)
    requires
        x < p256(n),
    ensures
        from_le(le(x, n)) == x,
    decreases n,
{
    if n > 0 {
        assert(x / 256 < p256((n - 1) as nat)) by (nonlinear_arith)
            requires
                x < 256 * p256((n - 1) as nat),
        ;
        le_round_trip(x / 256, (n - 1) as nat);
        lemma_le_len(x / 256, (n - 1) as nat);
        assert(le(x, n).drop_first() =~= le(x / 256, (n - 1) as nat));
        assert(x == x % 256 + 256 * (x / 256)) by (nonlinear_arith);
    }
}

proof fn lemma_from_le_bound(s: Seq<u8>)
    ensures
        from_le(s) < p256(s.len()),
    decreases s.len(),
{
    if s.len() > 0 {
        lemma_from_le_bound(s.drop_first());
        let r = from_le(s.drop_first());
        let q = p256(s.drop_first().len());
        assert(s[0] + 256 * r < 256 * q) by (nonlinear_arith)
            requires
                r < q,
                s[0] < 256,
        ;
    }
}

/// Appends the `n` little-endian bytes of `x`.
fn push_le(out: &mut Vec<u8>, x: u64, n: usize)
    ensures
        final(out)@ == old(out)@ + le(x as nat, n as nat),
    decreases n,
{
    if n > 0 {
        let ghost start = out@;
        out.push((x % 256) as u8);
        push_le(out, x / 256, n - 1);
        assert(out@ =~= start + le(x as nat, n as nat));
    } else {
        assert(out@ =~= old(out)@ + le(x as nat, n as nat));
    }
}

/// The number spelled by `bytes[off..off + n]`, little-endian.
fn read_le(bytes: &Vec<u8>, off: usize, n: usize) -> (r: u64)
    requires
        n <= 8,
        off + n <= bytes.len(),
    ensures
        r == from_le(bytes@.subrange(off as int, off + n)),
    decreases n,
{
    if n == 0 {
        0
    } else {
        let rest = read_le(bytes, off + 1, n - 1);
        let ghost s = bytes@.subrange(off as int, off + n);
        assert(s.drop_first() =~= bytes@.subrange(off + 1, off + n));
        proof {
            lemma_from_le_bound(s.drop_first());
            lemma_p256_values();
            if n - 1 < 7 {
                lemma_p256_mono((n - 1) as nat, 7);
            }
        }
        assert(rest < 0x100_0000_0000_0000);
        (bytes[off] as u64) + 256 * rest
    }
}

proof fn lemma_p256_values()
    ensures
        p256(2) == 0x1_0000,
        p256(4) == 0x1_0000_0000,
        p256(7) == 0x100_0000_0000_0000,
{
    assert(p256(0) == 1);
    assert(p256(1) == 0x100);
    assert(p256(2) == 0x1_0000);
    assert(p256(3) == 0x100_0000);
    assert(p256(4) == 0x1_0000_0000);
    assert(p256(5) == 0x100_0000_0000);
    assert(p256(6) == 0x1_0000_0000_0000);
    assert(p256(7) == 0x100_0000_0000_0000);
}

proof fn lemma_p256_mono(a: nat, b: nat)
    requires
        a <= b,
    ensures
        p256(a) <= p256(b),
    decreases b,
{
    if a < b {
        lemma_p256_mono(a, (b - 1) as nat);
    }
}

/// Decoding an encoded header gives back every field: each byte range of
/// `header_bytes(h)` spells its field.
pub proof fn header_round_trip(h: FpHeader)
    ensures
        header_bytes(h).len() == 64,
        header_bytes(h).subrange(0, 4) == h.magic@,
        from_le(header_bytes(h).subrange(4, 6)) == h.version,
        from_le(header_bytes(h).subrange(6, 8)) == h.flags,
        from_le(header_bytes(h).subrange(8, 16)) == h.metadata_size,
        from_le(header_bytes(h).subrange(16, 24)) == h.payload_size,
        from_le(header_bytes(h).subrange(24, 32)) == h.payload_size_compressed,
        from_le(header_bytes(h).subrange(32, 36)) == h.num_fingerprints,
        from_le(header_bytes(h).subrange(36, 40)) == h.sample_rate,
        from_le(header_bytes(h).subrange(40, 44)) == h.duration_ms,
        from_le(header_bytes(h).subrange(44, 46)) == h.channels,
        from_le(header_bytes(h).subrange(46, 48)) == h.reserved1,
        from_le(header_bytes(h).subrange(48, 56)) == h.checksum,
        from_le(header_bytes(h).subrange(56, 64)) == h.reserved2,
{
    lemma_p256_values();
    assert(p256(8) == 0x1_0000_0000_0000_0000);
    let b = header_bytes(h);
    let f = [
        le(h.version as nat, 2),
        le(h.flags as nat, 2),
        le(h.metadata_size as nat, 8),
        le(h.payload_size as nat, 8),
        le(h.payload_size_compressed as nat, 8),
        le(h.num_fingerprints as nat, 4),
        le(h.sample_rate as nat, 4),
        le(h.duration_ms as nat, 4),
        le(h.channels as nat, 2),
        le(h.reserved1 as nat, 2),
        le(h.checksum as nat, 8),
        le(h.reserved2 as nat, 8),
    ];
    lemma_le_len(h.version as nat, 2);
    lemma_le_len(h.flags as nat, 2);
    lemma_le_len(h.metadata_size as nat, 8);
    lemma_le_len(h.payload_size as nat, 8);
    lemma_le_len(h.payload_size_compressed as nat, 8);
    lemma_le_len(h.num_fingerprints as nat, 4);
    lemma_le_len(h.sample_rate as nat, 4);
    lemma_le_len(h.duration_ms as nat, 4);
    lemma_le_len(h.channels as nat, 2);
    lemma_le_len(h.reserved1 as nat, 2);
    lemma_le_len(h.checksum as nat, 8);
    lemma_le_len(h.reserved2 as nat, 8);
    assert(b.subrange(0, 4) =~= h.magic@);
    assert(b.subrange(4, 6) =~= f[0]);
    assert(b.subrange(6, 8) =~= f[1]);
    assert(b.subrange(8, 16) =~= f[2]);
    assert(b.subrange(16, 24) =~= f[3]);
    assert(b.subrange(24, 32) =~= f[4]);
    assert(b.subrange(32, 36) =~= f[5]);
    assert(b.subrange(36, 40) =~= f[6]);
    assert(b.subrange(40, 44) =~= f[7]);
    assert(b.subrange(44, 46) =~= f[8]);
    assert(b.subrange(46, 48) =~= f[9]);
    assert(b.subrange(48, 56) =~= f[10]);
    assert(b.subrange(56, 64) =~= f[11]);
    le_round_trip(h.version as nat, 2);
    le_round_trip(h.flags as nat, 2);
    le_round_trip(h.metadata_size as nat, 8);
    le_round_trip(h.payload_size as nat, 8);
    le_round_trip(h.payload_size_compressed as nat, 8);
    le_round_trip(h.num_fingerprints as nat, 4);
    le_round_trip(h.sample_rate as nat, 4);
    le_round_trip(h.duration_ms as nat, 4);
    le_round_trip(h.channels as nat, 2);
    le_round_trip(h.reserved1 as nat, 2);
    le_round_trip(h.checksum as nat, 8);
    le_round_trip(h.reserved2 as nat, 8);
}

/// Reads fingerprint files.
pub struct FpReader;

impl FpReader {
    /// The header at the start of `bytes`: `None` when there are fewer than
    /// 64 bytes or the magic bytes differ, else each field read back
    /// little-endian.
    pub fn decode_header(bytes: &Vec<u8>) -> (r: Option<FpHeader>)
        ensures
            r is Some <==> bytes.len() >= 64 && bytes@.subrange(0, 4) == MAGIC@,
            r is Some ==> {
                let h = r->Some_0;
                let b = bytes@;
                &&& h.magic@ == MAGIC@
                &&& h.version == from_le(b.subrange(4, 6))
                &&& h.flags == from_le(b.subrange(6, 8))
                &&& h.metadata_size == from_le(b.subrange(8, 16))
                &&& h.payload_size == from_le(b.subrange(16, 24))
                &&& h.payload_size_compressed == from_le(b.subrange(24, 32))
                &&& h.num_fingerprints == from_le(b.subrange(32, 36))
                &&& h.sample_rate == from_le(b.subrange(36, 40))
                &&& h.duration_ms == from_le(b.subrange(40, 44))
                &&& h.channels == from_le(b.subrange(44, 46))
                &&& h.reserved1 == from_le(b.subrange(46, 48))
                &&& h.checksum == from_le(b.subrange(48, 56))
                &&& h.reserved2 == from_le(b.subrange(56, 64))
            },
    {
        if bytes.len() < 64 {
            return None;
        }
        if bytes[0] != MAGIC[0] || bytes[1] != MAGIC[1] || bytes[2] != MAGIC[2] || bytes[3] != MAGIC[3] {
            assert(bytes@.subrange(0, 4) != MAGIC@) by {
                assert(bytes@.subrange(0, 4)[0] == bytes@[0]);
                assert(bytes@.subrange(0, 4)[1] == bytes@[1]);
                assert(bytes@.subrange(0, 4)[2] == bytes@[2]);
                assert(bytes@.subrange(0, 4)[3] == bytes@[3]);
            }
            return None;
        }
        assert(bytes@.subrange(0, 4) =~= MAGIC@);
        proof {
            lemma_from_le_bound(bytes@.subrange(4, 6));
            lemma_from_le_bound(bytes@.subrange(6, 8));
            lemma_from_le_bound(bytes@.subrange(32, 36));
            lemma_from_le_bound(bytes@.subrange(36, 40));
            lemma_from_le_bound(bytes@.subrange(40, 44));
            lemma_from_le_bound(bytes@.subrange(44, 46));
            lemma_from_le_bound(bytes@.subrange(46, 48));
            lemma_p256_values();
        }
        Some(
            FpHeader {
                magic: MAGIC,
                version: read_le(bytes, 4, 2) as u16,
                flags: read_le(bytes, 6, 2) as u16,
                metadata_size: read_le(bytes, 8, 8),
                payload_size: read_le(bytes, 16, 8),
                payload_size_compressed: read_le(bytes, 24, 8),
                num_fingerprints: read_le(bytes, 32, 4) as u32,
                sample_rate: read_le(bytes, 36, 4) as u32,
                duration_ms: read_le(bytes, 40, 4) as u32,
                channels: read_le(bytes, 44, 2) as u16,
                reserved1: read_le(bytes, 46, 2) as u16,
                checksum: read_le(bytes, 48, 8),
                reserved2: read_le(bytes, 56, 8),
            },
        )
    }
}

/// Writes fingerprint files.
pub struct FpWriter {}

impl FpWriter {
    pub fn new() -> (r: FpWriter) {
        FpWriter {}
    }

    /// The header as 64 bytes, each field little-endian.
    pub fn encode_header(&self, h: &FpHeader) -> (r: Vec<u8>)
        ensures
            r@ == header_bytes(*h),
            r.len() == 64,
    {
        let mut out: Vec<u8> = Vec::new();
        out.push(h.magic[0]);
        out.push(h.magic[1]);
        out.push(h.magic[2]);
        out.push(h.magic[3]);
        assert(out@ =~= h.magic@);
        push_le(&mut out, h.version as u64, 2);
        push_le(&mut out, h.flags as u64, 2);
        push_le(&mut out, h.metadata_size, 8);
        push_le(&mut out, h.payload_size, 8);
        push_le(&mut out, h.payload_size_compressed, 8);
        push_le(&mut out, h.num_fingerprints as u64, 4);
        push_le(&mut out, h.sample_rate as u64, 4);
        push_le(&mut out, h.duration_ms as u64, 4);
        push_le(&mut out, h.channels as u64, 2);
        push_le(&mut out, h.reserved1 as u64, 2);
        push_le(&mut out, h.checksum, 8);
        push_le(&mut out, h.reserved2, 8);
        proof {
            lemma_le_len(h.version as nat, 2);
            lemma_le_len(h.flags as nat, 2);
            lemma_le_len(h.metadata_size as nat, 8);
            lemma_le_len(h.payload_size as nat, 8);
            lemma_le_len(h.payload_size_compressed as nat, 8);
            lemma_le_len(h.num_fingerprints as nat, 4);
            lemma_le_len(h.sample_rate as nat, 4);
            lemma_le_len(h.duration_ms as nat, 4);
            lemma_le_len(h.channels as nat, 2);
            lemma_le_len(h.reserved1 as nat, 2);
            lemma_le_len(h.checksum as nat, 8);
            lemma_le_len(h.reserved2 as nat, 8);
            assert(out@ =~= header_bytes(*h));
        }
        out
    }
}

} // verus!
