//! The SHDLC frame codec: byte stuffing, checksum, MOSI frame assembly and
//! MISO frame decoding.
//!
//! Wire layout of a frame:
//! `0x7E ADR CMD LEN stuffed(DATA) CHK 0x7E` outbound, and
//! `0x7E ADR CMD STATE LEN stuffed(DATA) CHK 0x7E` inbound.
//! `LEN` is the unstuffed payload length; `CHK` is the bitwise complement of
//! the 8-bit wrapping sum of everything between the delimiters except `CHK`
//! itself.

use vstd::prelude::*;

verus! {

/// The closed set of codec failures.  Every fallible operation of the codec
/// reports one of these; the codec itself never panics.
#[derive(Clone, Copy, Debug, PartialEq, Eq, Structural)]
pub enum ShdlcError {
    /// A payload longer than 255 bytes was handed to the frame encoder.
    InputTooLarge,
    /// A raw frame shorter than the 7-byte minimum was handed to the decoder.
    InvalidFrameLength,
    /// A raw frame does not both begin and end with the 0x7E delimiter.
    MissingStartStop,
    /// The escape byte 0x7D was followed by a byte outside the four
    /// recognized substitution codes; carries the offending byte.
    InvalidStuffedByte { byte: u8 },
    /// The escape byte 0x7D was the final byte, with nothing following it.
    TruncatedEscape,
    /// The unstuffed payload length differs from the LEN field of the frame.
    LengthMismatch,
    /// The received checksum byte differs from the recomputed checksum.
    ChecksumMismatch,
}

impl ShdlcError {
    /// The wording used for each failure kind.
    pub open spec fn message_spec(&self) -> Seq<char> {
        match self {
            ShdlcError::InputTooLarge => "input too large"@,
            ShdlcError::InvalidFrameLength => "invalid miso frame length"@,
            ShdlcError::MissingStartStop => "invalid miso frame: incorrect/missing start/stop bytes"@,
            ShdlcError::InvalidStuffedByte { .. } => "invalid/unsupported stuffed byte"@,
            ShdlcError::TruncatedEscape => "unexpected end of data after stuff byte"@,
            ShdlcError::LengthMismatch => "actual received data does not match expected length"@,
            ShdlcError::ChecksumMismatch => "checksum mismatch"@,
        }
    }

    /// A short description of the failure, for logs and diagnostics.
    pub fn message(&self) -> (r: &'static str)
        ensures
            r@ == self.message_spec(),
    {
        match self {
            ShdlcError::InputTooLarge => "input too large",
            ShdlcError::InvalidFrameLength => "invalid miso frame length",
            ShdlcError::MissingStartStop => "invalid miso frame: incorrect/missing start/stop bytes",
            ShdlcError::InvalidStuffedByte { .. } => "invalid/unsupported stuffed byte",
            ShdlcError::TruncatedEscape => "unexpected end of data after stuff byte",
            ShdlcError::LengthMismatch => "actual received data does not match expected length",
            ShdlcError::ChecksumMismatch => "checksum mismatch",
        }
    }
}

/// The four byte values that must not appear bare inside a frame body:
/// the delimiter 0x7E, the escape byte 0x7D, and the control bytes
/// 0x11 and 0x13.
pub open spec fn is_reserved(b: u8) -> bool {
    b == 0x7E || b == 0x7D || b == 0x11 || b == 0x13
}

/// The substitution code written after the escape byte for a reserved byte:
/// 0x7E -> 0x5E, 0x7D -> 0x5D, 0x11 -> 0x31, 0x13 -> 0x33.
pub open spec fn escape_code(b: u8) -> u8
    recommends
        is_reserved(b),
{
    if b == 0x7E {
        0x5E
    } else if b == 0x7D {
        0x5D
    } else if b == 0x11 {
        0x31
    } else {
        0x33
    }
}

/// The four byte values recognized after the escape byte.
pub open spec fn is_escape_code(b: u8) -> bool {
    b == 0x5E || b == 0x5D || b == 0x31 || b == 0x33
}

/// The reserved byte that a substitution code stands for; inverse of
/// `escape_code`.
pub open spec fn unescape_code(b: u8) -> u8
    recommends
        is_escape_code(b),
{
    if b == 0x5E {
        0x7E
    } else if b == 0x5D {
        0x7D
    } else if b == 0x31 {
        0x11
    } else {
        0x13
    }
}

/// What one input byte contributes to the stuffed output: reserved bytes
/// become the escape byte followed by their substitution code, all other
/// bytes pass through unchanged.
pub open spec fn stuff_byte_spec(b: u8) -> Seq<u8> {
    if is_reserved(b) {
        seq![0x7Du8, escape_code(b)]
    } else {
        seq![b]
    }
}

/// The stuffed form of a byte sequence: each byte replaced by its
/// `stuff_byte_spec` expansion, order preserved.
pub open spec fn stuff_spec(data: Seq<u8>) -> Seq<u8>
    decreases data.len(),
{
    if data.len() == 0 {
        Seq::empty()
    } else {
        stuff_byte_spec(data[0]) + stuff_spec(data.skip(1))
    }
}

/// Stuffing distributes over concatenation.
pub proof fn lemma_stuff_spec_app(a: Seq<u8>, b: Seq<u8>)
    ensures
        stuff_spec(a + b) == stuff_spec(a) + stuff_spec(b),
    decreases a.len(),
{
    if a.len() == 0 {
        assert(a + b =~= b);
        assert(stuff_spec(a) + stuff_spec(b) =~= stuff_spec(b));
    } else {
        assert((a + b).skip(1) =~= a.skip(1) + b);
        lemma_stuff_spec_app(a.skip(1), b);
        assert(stuff_byte_spec(a[0]) + (stuff_spec(a.skip(1)) + stuff_spec(b)) =~= (stuff_byte_spec(
            a[0],
        ) + stuff_spec(a.skip(1))) + stuff_spec(b));
        assert((a + b)[0] == a[0]);
    }
}

/// Stuff `data` following the SHDLC convention, appending the stuffed bytes
/// to `out`.  Stuffing never fails and never reorders; it only ever expands
/// each reserved byte into a two-byte escape sequence.
pub fn stuff_data(data: &[u8], out: &mut Vec<u8>)
    ensures
        final(out)@ == old(out)@ + stuff_spec(data@),
{
    let ghost prefix = out@;
    let n = data.len();
    let mut i: usize = 0;
    while i < n
        invariant
            i <= n,
            n == data@.len(),
            out@ == prefix + stuff_spec(data@.take(i as int)),
        decreases n - i,
    {
        let byte = data[i];
        let mapped: Option<u8> = match byte {
            0x7E => Some(0x5E),
            0x7D => Some(0x5D),
            0x11 => Some(0x31),
            0x13 => Some(0x33),
            _ => None,
        };
        if let Some(mapped_byte) = mapped {
            out.push(0x7D);
            out.push(mapped_byte);
        } else {
            out.push(byte);
        }
        proof {
            assert(data@.take(i + 1) =~= data@.take(i as int) + seq![data@[i as int]]);
            lemma_stuff_spec_app(data@.take(i as int), seq![data@[i as int]]);
            reveal_with_fuel(stuff_spec, 2);
            assert(stuff_spec(seq![data@[i as int]]) =~= stuff_byte_spec(data@[i as int]));
            assert(out@ =~= prefix + stuff_spec(data@.take(i + 1)));
        }
        i = i + 1;
    }
    proof {
        assert(data@.take(n as int) =~= data@);
    }
}

/// The 8-bit wrapping sum of a byte sequence.
pub open spec fn sum_mod256(data: Seq<u8>) -> u8
    decreases data.len(),
{
    if data.len() == 0 {
        0
    } else {
        ((sum_mod256(data.drop_last()) + data.last()) % 256) as u8
    }
}

/// The SHDLC checksum of a byte sequence: the bitwise complement of its
/// 8-bit wrapping sum.
pub open spec fn checksum_spec(data: Seq<u8>) -> u8 {
    !sum_mod256(data)
}

/// Compute the SHDLC checksum: sum all bytes with 8-bit wraparound, then
/// complement the sum.  Deterministic and total.
pub fn checksum(data: &[u8]) -> (r: u8)
    ensures
        r == checksum_spec(data@),
{
    let n = data.len();
    let mut sum: u8 = 0;
    let mut i: usize = 0;
    while i < n
        invariant
            i <= n,
            n == data@.len(),
            sum == sum_mod256(data@.take(i as int)),
        decreases n - i,
    {
        sum = sum.wrapping_add(data[i]);
        proof {
            assert(data@.take(i + 1).drop_last() =~= data@.take(i as int));
            assert(data@.take(i + 1).last() == data@[i as int]);
        }
        i = i + 1;
    }
    proof {
        assert(data@.take(n as int) =~= data@);
    }
    !sum
}

/// Prepend an already-unstuffed prefix to the outcome of unstuffing the
/// remainder; errors pass through unchanged.
pub open spec fn prepend_unstuffed(prefix: Seq<u8>, r: Result<Seq<u8>, ShdlcError>) -> Result<
    Seq<u8>,
    ShdlcError,
> {
    match r {
        Ok(rest) => Ok(prefix + rest),
        Err(e) => Err(e),
    }
}

/// The unstuffed form of a byte sequence, or the failure that unstuffing
/// runs into: an escape byte followed by an unrecognized code, or an escape
/// byte with nothing following it.
pub open spec fn unstuff_spec(s: Seq<u8>) -> Result<Seq<u8>, ShdlcError>
    decreases s.len(),
{
    if s.len() == 0 {
        Ok(Seq::empty())
    } else if s[0] == 0x7D {
        if s.len() == 1 {
            Err(ShdlcError::TruncatedEscape)
        } else if is_escape_code(s[1]) {
            prepend_unstuffed(seq![unescape_code(s[1])], unstuff_spec(s.skip(2)))
        } else {
            Err(ShdlcError::InvalidStuffedByte { byte: s[1] })
        }
    } else {
        prepend_unstuffed(seq![s[0]], unstuff_spec(s.skip(1)))
    }
}

proof fn lemma_prepend_unstuffed_empty(r: Result<Seq<u8>, ShdlcError>)
    ensures
        prepend_unstuffed(Seq::empty(), r) == r,
{
    match r {
        Ok(rest) => {
            assert(Seq::empty() + rest =~= rest);
        },
        Err(_) => {},
    }
}

proof fn lemma_prepend_unstuffed_app(a: Seq<u8>, b: Seq<u8>, r: Result<Seq<u8>, ShdlcError>)
    ensures
        prepend_unstuffed(a, prepend_unstuffed(b, r)) == prepend_unstuffed(a + b, r),
{
    match r {
        Ok(rest) => {
            assert(a + (b + rest) =~= (a + b) + rest);
        },
        Err(_) => {},
    }
}

/// Reverse SHDLC byte stuffing.  Each escape byte 0x7D must be followed by
/// one of the four substitution codes, which is mapped back to the reserved
/// byte it stands for; all other bytes pass through unchanged.
pub fn unstuff_data(data: &[u8]) -> (r: Result<Vec<u8>, ShdlcError>)
    ensures
        match r {
            Ok(v) => unstuff_spec(data@) == Ok::<Seq<u8>, ShdlcError>(v@),
            Err(e) => unstuff_spec(data@) == Err::<Seq<u8>, ShdlcError>(e),
        },
{
    let n = data.len();
    let mut out: Vec<u8> = Vec::new();
    let mut i: usize = 0;
    proof {
        assert(data@.skip(0) =~= data@);
        lemma_prepend_unstuffed_empty(unstuff_spec(data@));
    }
    while i < n
        invariant
            i <= n,
            n == data@.len(),
            unstuff_spec(data@) == prepend_unstuffed(out@, unstuff_spec(data@.skip(i as int))),
        decreases n - i,
    {
        let byte = data[i];
        if byte == 0x7D {
            if i + 1 == n {
                proof {
                    assert(data@.skip(i as int).len() == 1);
                    assert(data@.skip(i as int)[0] == 0x7D);
                }
                return Err(ShdlcError::TruncatedEscape);
            }
            let code = data[i + 1];
            let mapped: Option<u8> = match code {
                0x5E => Some(0x7E),
                0x5D => Some(0x7D),
                0x31 => Some(0x11),
                0x33 => Some(0x13),
                _ => None,
            };
            proof {
                assert(data@.skip(i as int)[0] == 0x7D);
                assert(data@.skip(i as int)[1] == data@[i + 1]);
            }
            if let Some(mapped_byte) = mapped {
                let ghost out_prev = out@;
                out.push(mapped_byte);
                proof {
                    assert(data@.skip(i as int).skip(2) =~= data@.skip(i + 2));
                    lemma_prepend_unstuffed_app(
                        out_prev,
                        seq![mapped_byte],
                        unstuff_spec(data@.skip(i + 2)),
                    );
                    assert(out_prev + seq![mapped_byte] =~= out@);
                }
                i = i + 2;
            } else {
                return Err(ShdlcError::InvalidStuffedByte { byte: code });
            }
        } else {
            let ghost out_prev = out@;
            out.push(byte);
            proof {
                assert(data@.skip(i as int)[0] == data@[i as int]);
                assert(data@.skip(i as int).skip(1) =~= data@.skip(i + 1));
                lemma_prepend_unstuffed_app(out_prev, seq![byte], unstuff_spec(data@.skip(i + 1)));
                assert(out_prev + seq![byte] =~= out@);
            }
            i = i + 1;
        }
    }
    proof {
        assert(data@.skip(n as int) =~= Seq::<u8>::empty());
        assert(out@ + Seq::<u8>::empty() =~= out@);
    }
    Ok(out)
}

/// Law: unstuffing inverts stuffing.  For every byte sequence `d`,
/// unstuffing the stuffed form of `d` succeeds and gives back `d`.
pub proof fn lemma_stuff_round_trip(d: Seq<u8>)
    ensures
        unstuff_spec(stuff_spec(d)) == Ok::<Seq<u8>, ShdlcError>(d),
    decreases d.len(),
{
    if d.len() == 0 {
        assert(d =~= Seq::<u8>::empty());
    } else {
        lemma_stuff_round_trip(d.skip(1));
        let s = stuff_spec(d);
        if is_reserved(d[0]) {
            assert(s[0] == 0x7D);
            assert(s[1] == escape_code(d[0]));
            assert(is_escape_code(escape_code(d[0])));
            assert(unescape_code(escape_code(d[0])) == d[0]);
            assert(s.skip(2) =~= stuff_spec(d.skip(1)));
            assert(seq![d[0]] + d.skip(1) =~= d);
        } else {
            assert(s[0] == d[0]);
            assert(s[0] != 0x7D);
            assert(s.skip(1) =~= stuff_spec(d.skip(1)));
            assert(seq![d[0]] + d.skip(1) =~= d);
        }
    }
}

/// Law: stuffing is injective — two byte sequences with the same stuffed
/// form are the same sequence.
pub proof fn lemma_stuff_injective(a: Seq<u8>, b: Seq<u8>)
    requires
        stuff_spec(a) == stuff_spec(b),
    ensures
        a == b,
{
    lemma_stuff_round_trip(a);
    lemma_stuff_round_trip(b);
}

/// The wire bytes of an outbound (MOSI) command frame: delimiter, address,
/// command, unstuffed payload length, stuffed payload, checksum over
/// everything since the leading delimiter, trailing delimiter.
pub open spec fn mosi_frame_spec(adr: u8, cmd: u8, data: Seq<u8>) -> Seq<u8>
    recommends
        data.len() <= 255,
{
    let body = seq![adr, cmd, data.len() as u8] + stuff_spec(data);
    seq![0x7Eu8] + body + seq![checksum_spec(body), 0x7Eu8]
}

/// Assemble the wire bytes of an outbound command frame for `adr` and `cmd`
/// carrying `data`.  Fails exactly when the payload is longer than 255
/// bytes, the largest length the LEN field can declare.
pub fn mosi_frame(adr: u8, cmd: u8, data: &[u8]) -> (r: Result<Vec<u8>, ShdlcError>)
    ensures
        match r {
            Ok(v) => data@.len() <= 255 && v@ == mosi_frame_spec(adr, cmd, data@),
            Err(e) => data@.len() > 255 && e == ShdlcError::InputTooLarge,
        },
{
    if data.len() > 255 {
        return Err(ShdlcError::InputTooLarge);
    }
    let mut body: Vec<u8> = Vec::new();
    body.push(adr);
    body.push(cmd);
    body.push(data.len() as u8);
    stuff_data(data, &mut body);
    proof {
        assert(body@ =~= seq![adr, cmd, data@.len() as u8] + stuff_spec(data@));
    }
    let chk = checksum(body.as_slice());
    let mut out: Vec<u8> = Vec::new();
    out.push(0x7E);
    let n = body.len();
    let mut i: usize = 0;
    while i < n
        invariant
            i <= n,
            n == body@.len(),
            out@ == seq![0x7Eu8] + body@.take(i as int),
        decreases n - i,
    {
        out.push(body[i]);
        proof {
            assert(body@.take(i + 1) =~= body@.take(i as int) + seq![body@[i as int]]);
            assert(out@ =~= seq![0x7Eu8] + body@.take(i + 1));
        }
        i = i + 1;
    }
    out.push(chk);
    out.push(0x7E);
    proof {
        assert(body@.take(n as int) =~= body@);
        assert(out@ =~= mosi_frame_spec(adr, cmd, data@));
    }
    Ok(out)
}

/// A decoded inbound (MISO) response frame, owning its unstuffed payload.
#[derive(Debug)]
pub struct MisoFrame {
    pub adr: u8,
    pub cmd: u8,
    pub state: u8,
    pub data: Vec<u8>,
}

/// The mathematical content of a decoded inbound frame.
pub struct MisoFrameModel {
    pub adr: u8,
    pub cmd: u8,
    pub state: u8,
    pub data: Seq<u8>,
}

impl View for MisoFrame {
    type V = MisoFrameModel;

    open spec fn view(&self) -> MisoFrameModel {
        MisoFrameModel {
            adr: self.adr,
            cmd: self.cmd,
            state: self.state,
            data: self.data@,
        }
    }
}

impl PartialEq for MisoFrame {
    fn eq(&self, other: &Self) -> (r: bool) {
        let data_eq = self.data == other.data;
        proof {
            if data_eq {
                assert(self.data@ =~= other.data@);
            } else {
                if self.data@ == other.data@ {
                    assert(forall|i: int|
                        0 <= i < self.data@.len() ==> self.data@[i] == other.data@[i]);
                }
            }
        }
        self.adr == other.adr && self.cmd == other.cmd && self.state == other.state && data_eq
    }
}

impl vstd::std_specs::cmp::PartialEqSpecImpl for MisoFrame {
    open spec fn obeys_eq_spec() -> bool {
        true
    }

    open spec fn eq_spec(&self, other: &MisoFrame) -> bool {
        self.adr == other.adr && self.cmd == other.cmd && self.state == other.state
            && self.data@ == other.data@
    }
}

/// What decoding a raw delimited span yields: the frame's address, command,
/// state and unstuffed payload, or the first failure met when checking, in
/// order, the minimum length, the two delimiters, the escape sequences, and
/// the LEN field against the unstuffed payload length.
pub open spec fn decode_miso_frame_spec(s: Seq<u8>) -> Result<MisoFrameModel, ShdlcError> {
    if s.len() < 7 {
        Err(ShdlcError::InvalidFrameLength)
    } else if s[0] != 0x7E || s[s.len() - 1] != 0x7E {
        Err(ShdlcError::MissingStartStop)
    } else {
        match unstuff_spec(s.subrange(1, s.len() - 1)) {
            Err(e) => Err(e),
            Ok(u) => if u.len() >= 5 && u.len() - 5 == u[3] {
                Ok(
                    MisoFrameModel {
                        adr: u[0],
                        cmd: u[1],
                        state: u[2],
                        data: u.subrange(4, u.len() - 1),
                    },
                )
            } else {
                Err(ShdlcError::LengthMismatch)
            },
        }
    }
}

/// Decode an entire inbound frame, delimiters included.  The unstuffed
/// interior is `ADR CMD STATE LEN DATA CHK`; the payload length must equal
/// the LEN field exactly.  The received checksum byte is not inspected here;
/// `decode_miso_frame_checked` also validates it.
pub fn decode_miso_frame(data_stuffed: &[u8]) -> (r: Result<MisoFrame, ShdlcError>)
    ensures
        match r {
            Ok(f) => decode_miso_frame_spec(data_stuffed@) == Ok::<MisoFrameModel, ShdlcError>(f@),
            Err(e) => decode_miso_frame_spec(data_stuffed@) == Err::<MisoFrameModel, ShdlcError>(
                e,
            ),
        },
{
    let n = data_stuffed.len();
    if n < 7 {
        return Err(ShdlcError::InvalidFrameLength);
    }
    if data_stuffed[0] != 0x7E || data_stuffed[n - 1] != 0x7E {
        return Err(ShdlcError::MissingStartStop);
    }
    let interior = vstd::slice::slice_subrange(data_stuffed, 1, n - 1);
    let unstuffed = match unstuff_data(interior) {
        Ok(v) => v,
        Err(e) => return Err(e),
    };
    let m = unstuffed.len();
    if m < 5 {
        return Err(ShdlcError::LengthMismatch);
    }
    let expected_rx_data_length = unstuffed[3];
    if m - 5 != expected_rx_data_length as usize {
        return Err(ShdlcError::LengthMismatch);
    }
    let rx_data = vstd::slice::slice_subrange(unstuffed.as_slice(), 4, m - 1);
    Ok(
        MisoFrame {
            adr: unstuffed[0],
            cmd: unstuffed[1],
            state: unstuffed[2],
            data: vstd::slice::slice_to_vec(rx_data),
        },
    )
}

/// Whether the received checksum byte of a raw frame matches the checksum
/// recomputed over the unstuffed interior bytes before it.
pub open spec fn frame_checksum_matches(s: Seq<u8>) -> bool
    recommends
        unstuff_spec(s.subrange(1, s.len() - 1)) is Ok,
{
    let u = unstuff_spec(s.subrange(1, s.len() - 1))->Ok_0;
    checksum_spec(u.take(u.len() - 1)) == u.last()
}

/// What checked decoding yields: as `decode_miso_frame_spec`, except that a
/// structurally well-formed frame whose received checksum byte differs from
/// the recomputed checksum is a data-integrity failure.
pub open spec fn decode_miso_frame_checked_spec(s: Seq<u8>) -> Result<MisoFrameModel, ShdlcError> {
    match decode_miso_frame_spec(s) {
        Ok(m) => if frame_checksum_matches(s) {
            Ok(m)
        } else {
            Err(ShdlcError::ChecksumMismatch)
        },
        Err(e) => Err(e),
    }
}

/// Decode an entire inbound frame and validate its checksum byte: the
/// complement of the 8-bit wrapping sum of the unstuffed interior up to the
/// checksum byte must equal that byte.  All structural checks of
/// `decode_miso_frame` come first, in the same order.
pub fn decode_miso_frame_checked(data_stuffed: &[u8]) -> (r: Result<MisoFrame, ShdlcError>)
    ensures
        match r {
            Ok(f) => decode_miso_frame_checked_spec(data_stuffed@) == Ok::<
                MisoFrameModel,
                ShdlcError,
            >(f@),
            Err(e) => decode_miso_frame_checked_spec(data_stuffed@) == Err::<
                MisoFrameModel,
                ShdlcError,
            >(e),
        },
{
    let n = data_stuffed.len();
    if n < 7 {
        return Err(ShdlcError::InvalidFrameLength);
    }
    if data_stuffed[0] != 0x7E || data_stuffed[n - 1] != 0x7E {
        return Err(ShdlcError::MissingStartStop);
    }
    let interior = vstd::slice::slice_subrange(data_stuffed, 1, n - 1);
    let unstuffed = match unstuff_data(interior) {
        Ok(v) => v,
        Err(e) => return Err(e),
    };
    let m = unstuffed.len();
    if m < 5 {
        return Err(ShdlcError::LengthMismatch);
    }
    let expected_rx_data_length = unstuffed[3];
    if m - 5 != expected_rx_data_length as usize {
        return Err(ShdlcError::LengthMismatch);
    }
    let covered = vstd::slice::slice_subrange(unstuffed.as_slice(), 0, m - 1);
    if checksum(covered) != unstuffed[m - 1] {
        return Err(ShdlcError::ChecksumMismatch);
    }
    let rx_data = vstd::slice::slice_subrange(unstuffed.as_slice(), 4, m - 1);
    Ok(
        MisoFrame {
            adr: unstuffed[0],
            cmd: unstuffed[1],
            state: unstuffed[2],
            data: vstd::slice::slice_to_vec(rx_data),
        },
    )
}

} // verus!
