//! Cell and transaction statuses, and their compact byte encoding.
use vstd::prelude::*;

verus! {

/// The state of one output cell.
#[derive(Debug, Clone, Copy, PartialEq, Eq, Structural)]
pub enum CellStatus {
    /// The cell can be used as an input cell.
    Live,
    /// The cell can never be unlocked.
    Burn,
    /// The cell is already spent.
    Dead,
}

/// The statuses of all outputs of one transaction, in output order.
#[derive(Debug)]
pub struct TxOutputsStatus {
    pub statuses: Vec<CellStatus>,
}

/// What is known of a transaction.
#[derive(Debug)]
pub enum TxStatus {
    /// Known, not yet finalized in the ledger.
    Pending(TxOutputsStatus),
    /// Finalized in the ledger.
    Committed(TxOutputsStatus),
    /// Never valid; it has no outputs.
    Failed,
}

/// The mathematical value of a `TxStatus`.
pub enum StatusModel {
    Pending(Seq<CellStatus>),
    Committed(Seq<CellStatus>),
    Failed,
}

/// Malformed persisted bytes.
#[derive(Debug, Clone, Copy, PartialEq, Eq, Structural)]
pub enum CorruptError {
    /// Fewer bytes than a header needs.
    TooShort,
    /// The length does not match the declared count.
    WrongLength,
    /// A two-bit field holds the reserved pattern.
    ReservedPattern,
    /// A padding field is not `Live`.
    DirtyPadding,
    /// The leading tag byte is unknown.
    UnknownTag,
}

impl View for TxOutputsStatus {
    type V = Seq<CellStatus>;

    open spec fn view(&self) -> Seq<CellStatus> {
        self.statuses@
    }
}

impl View for TxStatus {
    type V = StatusModel;

    open spec fn view(&self) -> StatusModel {
        match self {
            TxStatus::Pending(o) => StatusModel::Pending(o@),
            TxStatus::Committed(o) => StatusModel::Committed(o@),
            TxStatus::Failed => StatusModel::Failed,
        }
    }
}

// ----- the model -----

/// Number of `Live` entries of `s`.
pub open spec fn live_count(s: Seq<CellStatus>) -> nat
    decreases s.len(),
{
    if s.len() == 0 {
        0
    } else {
        live_count(s.drop_last()) + if s.last() == CellStatus::Live {
            1nat
        } else {
            0nat
        }
    }
}

/// A vector is invalid when no entry is `Live`.
pub open spec fn outputs_invalid(s: Seq<CellStatus>) -> bool {
    forall|i: int| 0 <= i < s.len() ==> s[i] != CellStatus::Live
}

/// Cells that a transaction status still offers to be spent.
pub open spec fn status_live_count(t: StatusModel) -> nat {
    match t {
        StatusModel::Pending(s) => live_count(s),
        StatusModel::Committed(s) => live_count(s),
        StatusModel::Failed => 0,
    }
}

pub open spec fn status_invalid(t: StatusModel) -> bool {
    match t {
        StatusModel::Pending(s) => outputs_invalid(s),
        StatusModel::Committed(s) => outputs_invalid(s),
        StatusModel::Failed => true,
    }
}

/// The output vector of a status; empty for `Failed`.
pub open spec fn status_outputs(t: StatusModel) -> Seq<CellStatus> {
    match t {
        StatusModel::Pending(s) => s,
        StatusModel::Committed(s) => s,
        StatusModel::Failed => Seq::empty(),
    }
}

/// `t` with output `i` marked `Dead`.
pub open spec fn status_spent(t: StatusModel, i: int) -> StatusModel {
    match t {
        StatusModel::Pending(s) => StatusModel::Pending(s.update(i, CellStatus::Dead)),
        StatusModel::Committed(s) => StatusModel::Committed(s.update(i, CellStatus::Dead)),
        StatusModel::Failed => StatusModel::Failed,
    }
}

/// Output `i` of `t` exists and is `Live`.
pub open spec fn status_can_spend(t: StatusModel, i: int) -> bool {
    !(t is Failed) && 0 <= i < status_outputs(t).len() && status_outputs(t)[i] == CellStatus::Live
}

// ----- the encoding -----

/// Two-bit code of a cell status; `0b01` is reserved.
pub open spec fn cell_code(c: CellStatus) -> u8 {
    match c {
        CellStatus::Live => 0,
        CellStatus::Burn => 2,
        CellStatus::Dead => 3,
    }
}

/// Little-endian bytes of a `u32`.
pub open spec fn u32_le(n: u32) -> Seq<u8> {
    seq![(n & 0xff) as u8, ((n >> 8) & 0xff) as u8, ((n >> 16) & 0xff) as u8, ((n >> 24) & 0xff) as u8]
}

/// The `u32` whose little-endian bytes are `b0, b1, b2, b3`.
pub open spec fn u32_of_le(b0: u8, b1: u8, b2: u8, b3: u8) -> u32 {
    (b0 as u32) | ((b1 as u32) << 8) | ((b2 as u32) << 16) | ((b3 as u32) << 24)
}

/// Four two-bit fields in one byte, the first in the most significant pair.
pub open spec fn pack4(a: u8, b: u8, c: u8, d: u8) -> u8 {
    (a << 6) | (b << 4) | (c << 2) | d
}

/// Field `k` (0..4) of a byte, counted from the most significant pair.
pub open spec fn field(x: u8, k: u8) -> u8 {
    (x >> (6 - 2 * k) as u8) & 3
}

/// Code at position `i`; positions past the end are padding, coded `Live`.
pub open spec fn code_at(s: Seq<CellStatus>, i: int) -> u8 {
    if 0 <= i < s.len() {
        cell_code(s[i])
    } else {
        0
    }
}

pub open spec fn packed_byte(s: Seq<CellStatus>, j: int) -> u8 {
    pack4(code_at(s, 4 * j), code_at(s, 4 * j + 1), code_at(s, 4 * j + 2), code_at(s, 4 * j + 3))
}

/// Number of payload bytes for `n` statuses.
pub open spec fn packed_len(n: int) -> int {
    (n + 3) / 4
}

/// The encoding of an outputs-status vector: a little-endian `u32` count, then
/// four statuses per byte.
pub open spec fn encode_outputs(s: Seq<CellStatus>) -> Seq<u8> {
    u32_le(s.len() as u32) + Seq::new(packed_len(s.len() as int) as nat, |j: int| packed_byte(s, j))
}

/// An outputs-status vector that the encoding can hold.
pub open spec fn encodable(s: Seq<CellStatus>) -> bool {
    s.len() <= u32::MAX
}

pub open spec fn is_outputs_encoding(bytes: Seq<u8>) -> bool {
    exists|s: Seq<CellStatus>| encodable(s) && encode_outputs(s) == bytes
}

/// The vector that `bytes` encodes, if any.
pub open spec fn decode_outputs(bytes: Seq<u8>) -> Option<Seq<CellStatus>> {
    if is_outputs_encoding(bytes) {
        Some(choose|s: Seq<CellStatus>| encodable(s) && encode_outputs(s) == bytes)
    } else {
        None
    }
}

/// The encoding of a transaction status: a tag byte, then the outputs for
/// `Pending` and `Committed`.
pub open spec fn encode_status(t: StatusModel) -> Seq<u8> {
    match t {
        StatusModel::Pending(s) => seq![0x00u8] + encode_outputs(s),
        StatusModel::Committed(s) => seq![0x01u8] + encode_outputs(s),
        StatusModel::Failed => seq![0xffu8],
    }
}

pub open spec fn status_encodable(t: StatusModel) -> bool {
    encodable(status_outputs(t))
}

/// The status that `bytes` encodes, if any. A `Failed` tag ignores what
/// follows it.
pub open spec fn decode_status(bytes: Seq<u8>) -> Option<StatusModel> {
    if bytes.len() == 0 {
        None
    } else if bytes[0] == 0x00 {
        match decode_outputs(bytes.drop_first()) {
            Some(s) => Some(StatusModel::Pending(s)),
            None => None,
        }
    } else if bytes[0] == 0x01 {
        match decode_outputs(bytes.drop_first()) {
            Some(s) => Some(StatusModel::Committed(s)),
            None => None,
        }
    } else if bytes[0] == 0xff {
        Some(StatusModel::Failed)
    } else {
        None
    }
}

// ----- bit-level facts -----

proof fn lemma_u32_le_round_trip(n: u32)
    ensures
        u32_of_le(u32_le(n)[0], u32_le(n)[1], u32_le(n)[2], u32_le(n)[3]) == n,
{
    let b0 = (n & 0xff) as u8;
    let b1 = ((n >> 8) & 0xff) as u8;
    let b2 = ((n >> 16) & 0xff) as u8;
    let b3 = ((n >> 24) & 0xff) as u8;
    assert((b0 as u32) | ((b1 as u32) << 8) | ((b2 as u32) << 16) | ((b3 as u32) << 24) == n)
        by (bit_vector)
        requires
            b0 == (n & 0xff) as u8,
            b1 == ((n >> 8) & 0xff) as u8,
            b2 == ((n >> 16) & 0xff) as u8,
            b3 == ((n >> 24) & 0xff) as u8,
    ;
}

proof fn lemma_le_u32_round_trip(b0: u8, b1: u8, b2: u8, b3: u8)
    ensures
        u32_le(u32_of_le(b0, b1, b2, b3)) == seq![b0, b1, b2, b3],
{
    let n = u32_of_le(b0, b1, b2, b3);
    assert((n & 0xff) as u8 == b0 && ((n >> 8) & 0xff) as u8 == b1 && ((n >> 16) & 0xff) as u8
        == b2 && ((n >> 24) & 0xff) as u8 == b3) by (bit_vector)
        requires
            n == (b0 as u32) | ((b1 as u32) << 8) | ((b2 as u32) << 16) | ((b3 as u32) << 24),
    ;
    assert(u32_le(n) =~= seq![b0, b1, b2, b3]);
}

proof fn lemma_fields_pack(x: u8)
    ensures
        pack4(field(x, 0), field(x, 1), field(x, 2), field(x, 3)) == x,
        field(x, 0) < 4,
        field(x, 1) < 4,
        field(x, 2) < 4,
        field(x, 3) < 4,
{
    assert((((x >> 6u8) & 3) << 6) | (((x >> 4u8) & 3) << 4) | (((x >> 2u8) & 3) << 2) | ((x
        >> 0u8) & 3) == x) by (bit_vector);
    assert((x >> 6u8) & 3 < 4 && (x >> 4u8) & 3 < 4 && (x >> 2u8) & 3 < 4 && (x >> 0u8) & 3 < 4)
        by (bit_vector);
}

proof fn lemma_pack_fields(a: u8, b: u8, c: u8, d: u8)
    requires
        a < 4,
        b < 4,
        c < 4,
        d < 4,
    ensures
        field(pack4(a, b, c, d), 0) == a,
        field(pack4(a, b, c, d), 1) == b,
        field(pack4(a, b, c, d), 2) == c,
        field(pack4(a, b, c, d), 3) == d,
{
    let x = pack4(a, b, c, d);
    assert((x >> 6u8) & 3 == a && (x >> 4u8) & 3 == b && (x >> 2u8) & 3 == c && (x >> 0u8) & 3
        == d) by (bit_vector)
        requires
            x == (a << 6) | (b << 4) | (c << 2) | d,
            a < 4,
            b < 4,
            c < 4,
            d < 4,
    ;
}

/// Each payload byte of an encoding has only valid codes, and padding codes
/// are `Live`.
proof fn lemma_packed_byte_fields(s: Seq<CellStatus>, j: int, k: u8)
    requires
        k < 4,
    ensures
        field(packed_byte(s, j), k) == code_at(s, 4 * j + k),
{
    lemma_pack_fields(code_at(s, 4 * j), code_at(s, 4 * j + 1), code_at(s, 4 * j + 2), code_at(s, 4 * j + 3));
}

// ----- executable code -----

/// Writes `num` as four little-endian bytes.
pub fn write_u32(output: &mut Vec<u8>, num: u32)
    ensures
        final(output)@ == old(output)@ + u32_le(num),
{
    output.push((num & 0xff) as u8);
    output.push(((num >> 8) & 0xff) as u8);
    output.push(((num >> 16) & 0xff) as u8);
    output.push(((num >> 24) & 0xff) as u8);
    assert(final(output)@ =~= old(output)@ + u32_le(num));
}

/// Reads a little-endian `u32` from the first four bytes.
pub fn read_u32(slice: &[u8]) -> (r: Result<u32, CorruptError>)
    ensures
        slice@.len() < 4 ==> r == Err::<u32, CorruptError>(CorruptError::TooShort),
        slice@.len() >= 4 ==> r == Ok::<u32, CorruptError>(
            u32_of_le(slice@[0], slice@[1], slice@[2], slice@[3]),
        ),
{
    if slice.len() < 4 {
        return Err(CorruptError::TooShort);
    }
    Ok((slice[0] as u32) | ((slice[1] as u32) << 8) | ((slice[2] as u32) << 16) | ((slice[3] as u32)
        << 24))
}

fn code_of(c: CellStatus) -> (r: u8)
    ensures
        r == cell_code(c),
{
    match c {
        CellStatus::Live => 0,
        CellStatus::Burn => 2,
        CellStatus::Dead => 3,
    }
}

fn status_of_code(x: u8) -> (r: Option<CellStatus>)
    requires
        x < 4,
    ensures
        x == 1 <==> r is None,
        r matches Some(c) ==> cell_code(c) == x,
{
    if x == 0 {
        Some(CellStatus::Live)
    } else if x == 2 {
        Some(CellStatus::Burn)
    } else if x == 3 {
        Some(CellStatus::Dead)
    } else {
        None
    }
}

impl TxOutputsStatus {
    /// `count` outputs, all `Live`.
    pub fn new_all_live(count: usize) -> (r: Self)
        ensures
            r@.len() == count,
            forall|i: int| 0 <= i < count ==> r@[i] == CellStatus::Live,
    {
        let mut statuses: Vec<CellStatus> = Vec::new();
        let mut i: usize = 0;
        while i < count
            invariant
                i <= count,
                statuses@.len() == i,
                forall|j: int| 0 <= j < i ==> statuses@[j] == CellStatus::Live,
            decreases count - i,
        {
            statuses.push(CellStatus::Live);
            i += 1;
        }
        TxOutputsStatus { statuses }
    }

    pub fn count(&self) -> (r: usize)
        ensures
            r == self@.len(),
    {
        self.statuses.len()
    }

    pub fn status(&self, index: usize) -> (r: CellStatus)
        requires
            index < self@.len(),
        ensures
            r == self@[index as int],
    {
        self.statuses[index]
    }

    /// True when no output is `Live`.
    pub fn is_invalid(&self) -> (r: bool)
        ensures
            r == outputs_invalid(self@),
    {
        let mut i: usize = 0;
        while i < self.statuses.len()
            invariant
                i <= self@.len(),
                forall|j: int| 0 <= j < i ==> self@[j] != CellStatus::Live,
            decreases self@.len() - i,
        {
            if self.statuses[i] == CellStatus::Live {
                return false;
            }
            i += 1;
        }
        true
    }

    /// Marks output `index` as spent; only a `Live` output can be spent.
    pub fn spent(&mut self, index: usize)
        requires
            index < old(self)@.len(),
            old(self)@[index as int] == CellStatus::Live,
        ensures
            final(self)@ == old(self)@.update(index as int, CellStatus::Dead),
    {
        self.statuses.set(index, CellStatus::Dead);
    }

    pub fn copy(&self) -> (r: Self)
        ensures
            r@ == self@,
    {
        let mut statuses: Vec<CellStatus> = Vec::new();
        let mut i: usize = 0;
        while i < self.statuses.len()
            invariant
                i <= self@.len(),
                statuses@ == self@.subrange(0, i as int),
            decreases self@.len() - i,
        {
            statuses.push(self.statuses[i]);
            i += 1;
        }
        assert(statuses@ =~= self@);
        TxOutputsStatus { statuses }
    }

    /// Appends the encoding of the statuses to `output`.
    pub fn write_into(&self, output: &mut Vec<u8>)
        requires
            encodable(self@),
        ensures
            final(output)@ == old(output)@ + encode_outputs(self@),
    {
        let n = self.statuses.len();
        write_u32(output, n as u32);
        let ghost start = old(output)@ + u32_le(n as u32);
        let nbytes: usize = n / 4 + if n % 4 == 0 {
            0
        } else {
            1
        };
        assert(nbytes == packed_len(n as int));
        let mut j: usize = 0;
        while j < nbytes
            invariant
                n == self@.len(),
                nbytes == packed_len(n as int),
                j <= nbytes,
                output@ == start + Seq::new(j as nat, |i: int| packed_byte(self@, i)),
            decreases nbytes - j,
        {
            let mut codes: [u8; 4] = [0u8; 4];
            let mut k: usize = 0;
            while k < 4
                invariant
                    n == self@.len(),
                    j < nbytes,
                    nbytes == packed_len(n as int),
                    k <= 4,
                    forall|m: int| 0 <= m < k ==> codes@[m] == code_at(self@, 4 * j + m),
                    forall|m: int| k <= m < 4 ==> codes@[m] == 0,
                decreases 4 - k,
            {
                let p = 4 * j + k;
                if p < n {
                    codes[k] = code_of(self.statuses[p]);
                }
                k += 1;
            }
            let byte: u8 = (codes[0] << 6) | (codes[1] << 4) | (codes[2] << 2) | codes[3];
            assert(byte == packed_byte(self@, j as int));
            output.push(byte);
            assert(output@ =~= start + Seq::new((j + 1) as nat, |i: int| packed_byte(self@, i)));
            j += 1;
        }
        assert(output@ =~= old(output)@ + encode_outputs(self@));
    }

    /// Reads an encoding made by `write_into`; any other input is refused.
    pub fn from_slice(slice: &[u8]) -> (r: Result<Self, CorruptError>)
        ensures
            r matches Ok(o) ==> decode_outputs(slice@) == Some(o@),
            r is Err <==> decode_outputs(slice@) is None,
    {
        let count = match read_u32(slice) {
            Ok(c) => c,
            Err(e) => {
                proof {
                    if is_outputs_encoding(slice@) {
                        let s = choose|s: Seq<CellStatus>|
                            encodable(s) && encode_outputs(s) == slice@;
                        assert(encode_outputs(s).len() >= 4);
                    }
                }
                return Err(e);
            },
        };
        let n = count as usize;
        let nbytes: usize = n / 4 + if n % 4 == 0 {
            0
        } else {
            1
        };
        if slice.len() - 4 != nbytes {
            proof {
                if is_outputs_encoding(slice@) {
                    let s = choose|s: Seq<CellStatus>|
                        encodable(s) && encode_outputs(s) == slice@;
                    lemma_encoding_header(s);
                    assert(slice@[0] == u32_le(s.len() as u32)[0]);
                    assert(slice@[1] == u32_le(s.len() as u32)[1]);
                    assert(slice@[2] == u32_le(s.len() as u32)[2]);
                    assert(slice@[3] == u32_le(s.len() as u32)[3]);
                    lemma_u32_le_round_trip(s.len() as u32);
                }
            }
            return Err(CorruptError::WrongLength);
        }
        let mut statuses: Vec<CellStatus> = Vec::new();
        let mut j: usize = 0;
        while j < nbytes
            invariant
                n == count,
                count == u32_of_le(slice@[0], slice@[1], slice@[2], slice@[3]),
                slice@.len() == 4 + nbytes,
                nbytes == packed_len(n as int),
                j <= nbytes,
                statuses@.len() == if 4 * j < n {
                    4 * j
                } else {
                    n as int
                },
                forall|j2: int, k: u8|
                    0 <= j2 < j && k < 4 ==> #[trigger] field(slice@[4 + j2], k) == code_at(
                        statuses@,
                        4 * j2 + k,
                    ),
            decreases nbytes - j,
        {
            let x = slice[4 + j];
            let mut k: u8 = 0;
            while k < 4
                invariant
                    n == count,
                    count == u32_of_le(slice@[0], slice@[1], slice@[2], slice@[3]),
                    slice@.len() == 4 + nbytes,
                    nbytes == packed_len(n as int),
                    j < nbytes,
                    x == slice@[4 + j],
                    k <= 4,
                    statuses@.len() == if 4 * j + k < n {
                        4 * j + k
                    } else {
                        n as int
                    },
                    forall|j2: int, k2: u8|
                        0 <= j2 < j && k2 < 4 ==> #[trigger] field(slice@[4 + j2], k2) == code_at(
                            statuses@,
                            4 * j2 + k2,
                        ),
                    forall|k2: u8| k2 < k ==> field(x, k2) == code_at(statuses@, 4 * j + k2),
                decreases 4 - k,
            {
                let f: u8 = (x >> (6 - 2 * k)) & 3;
                assert(f == field(x, k));
                assert(f < 4) by (bit_vector)
                    requires
                        f == (x >> (6 - 2 * k) as u8) & 3,
                ;
                let ghost before = statuses@;
                match status_of_code(f) {
                    None => {
                        proof {
                            lemma_reserved_is_corrupt(slice@, j as int, k);
                        }
                        return Err(CorruptError::ReservedPattern);
                    },
                    Some(c) => {
                        if 4 * j + (k as usize) < n {
                            statuses.push(c);
                        } else if f != 0 {
                            proof {
                                lemma_padding_is_corrupt(slice@, j as int, k);
                            }
                            return Err(CorruptError::DirtyPadding);
                        }
                    },
                }
                assert forall|j2: int, k2: u8|
                    0 <= j2 < j && k2 < 4 implies #[trigger] field(slice@[4 + j2], k2) == code_at(
                    statuses@,
                    4 * j2 + k2,
                ) by {
                    assert(code_at(statuses@, 4 * j2 + k2) == code_at(before, 4 * j2 + k2));
                }
                assert forall|k2: u8| k2 < k + 1 implies field(x, k2) == code_at(
                    statuses@,
                    4 * j + k2,
                ) by {
                    if k2 < k {
                        assert(code_at(statuses@, 4 * j + k2) == code_at(before, 4 * j + k2));
                    }
                }
                k += 1;
            }
            j += 1;
        }
        let r = TxOutputsStatus { statuses };
        proof {
            assert(r@.len() == n);
            lemma_le_u32_round_trip(slice@[0], slice@[1], slice@[2], slice@[3]);
            assert forall|j2: int| 0 <= j2 < nbytes implies packed_byte(r@, j2) == slice@[4
                + j2] by {
                let x = slice@[4 + j2];
                lemma_fields_pack(x);
                assert(field(x, 0) == code_at(r@, 4 * j2 + 0));
                assert(field(x, 1) == code_at(r@, 4 * j2 + 1));
                assert(field(x, 2) == code_at(r@, 4 * j2 + 2));
                assert(field(x, 3) == code_at(r@, 4 * j2 + 3));
            }
            assert(encode_outputs(r@) =~= slice@);
            lemma_decode_encode_outputs(r@);
        }
        Ok(r)
    }
}

proof fn lemma_encoding_header(s: Seq<CellStatus>)
    ensures
        encode_outputs(s).len() == 4 + packed_len(s.len() as int),
        encode_outputs(s).subrange(0, 4) == u32_le(s.len() as u32),
        forall|j: int|
            0 <= j < packed_len(s.len() as int) ==> #[trigger] encode_outputs(s)[4 + j]
                == packed_byte(s, j),
{
    assert(encode_outputs(s).subrange(0, 4) =~= u32_le(s.len() as u32));
}

/// A byte of the payload of an encoding never holds the reserved pattern.
proof fn lemma_reserved_is_corrupt(bytes: Seq<u8>, j: int, k: u8)
    requires
        k < 4,
        0 <= j,
        4 + j < bytes.len(),
        field(bytes[4 + j], k) == 1,
    ensures
        !is_outputs_encoding(bytes),
{
    if is_outputs_encoding(bytes) {
        let s = choose|s: Seq<CellStatus>| encodable(s) && encode_outputs(s) == bytes;
        lemma_encoding_header(s);
        lemma_packed_byte_fields(s, j, k);
        assert(bytes[4 + j] == packed_byte(s, j));
    }
}

/// The padding codes of an encoding are `Live`.
proof fn lemma_padding_is_corrupt(bytes: Seq<u8>, j: int, k: u8)
    requires
        k < 4,
        0 <= j,
        4 + j < bytes.len(),
        4 * j + k >= u32_of_le(bytes[0], bytes[1], bytes[2], bytes[3]),
        field(bytes[4 + j], k) != 0,
    ensures
        !is_outputs_encoding(bytes),
{
    if is_outputs_encoding(bytes) {
        let s = choose|s: Seq<CellStatus>| encodable(s) && encode_outputs(s) == bytes;
        lemma_encoding_header(s);
        lemma_packed_byte_fields(s, j, k);
        assert(bytes[4 + j] == packed_byte(s, j));
        assert(bytes[0] == u32_le(s.len() as u32)[0]);
        assert(bytes[1] == u32_le(s.len() as u32)[1]);
        assert(bytes[2] == u32_le(s.len() as u32)[2]);
        assert(bytes[3] == u32_le(s.len() as u32)[3]);
        lemma_u32_le_round_trip(s.len() as u32);
    }
}

/// Equal encodings come from equal vectors.
proof fn lemma_encode_injective(s1: Seq<CellStatus>, s2: Seq<CellStatus>)
    requires
        encodable(s1),
        encodable(s2),
        encode_outputs(s1) == encode_outputs(s2),
    ensures
        s1 == s2,
{
    lemma_encoding_header(s1);
    lemma_encoding_header(s2);
    let e = encode_outputs(s1);
    assert(u32_le(s1.len() as u32) == e.subrange(0, 4));
    assert(u32_le(s2.len() as u32) == e.subrange(0, 4));
    lemma_u32_le_round_trip(s1.len() as u32);
    lemma_u32_le_round_trip(s2.len() as u32);
    assert(s1.len() == s2.len());
    assert forall|i: int| 0 <= i < s1.len() implies s1[i] == s2[i] by {
        let j = i / 4;
        let k = (i % 4) as u8;
        assert(4 * j + k == i);
        assert(0 <= j < packed_len(s1.len() as int));
        lemma_packed_byte_fields(s1, j, k);
        lemma_packed_byte_fields(s2, j, k);
        assert(e[4 + j] == packed_byte(s1, j));
        assert(e[4 + j] == packed_byte(s2, j));
    }
    assert(s1 =~= s2);
}

/// Decoding the encoding of a vector gives the vector back.
pub proof fn lemma_decode_encode_outputs(s: Seq<CellStatus>)
    requires
        encodable(s),
    ensures
        decode_outputs(encode_outputs(s)) == Some(s),
{
    assert(is_outputs_encoding(encode_outputs(s)));
    let s2 = choose|s2: Seq<CellStatus>| encodable(s2) && encode_outputs(s2) == encode_outputs(s);
    lemma_encode_injective(s, s2);
}

/// Decoding refuses bytes whose declared count does not match the payload
/// length, and bytes whose payload holds the reserved two-bit pattern.
pub proof fn lemma_decode_rejects(bytes: Seq<u8>)
    requires
        bytes.len() >= 4,
        bytes.len() != 4 + packed_len(u32_of_le(bytes[0], bytes[1], bytes[2], bytes[3]) as int)
            || exists|j: int, k: u8|
            0 <= j && 4 + j < bytes.len() && k < 4 && #[trigger] field(bytes[4 + j], k) == 1,
    ensures
        decode_outputs(bytes) is None,
{
    if is_outputs_encoding(bytes) {
        let s = choose|s: Seq<CellStatus>| encodable(s) && encode_outputs(s) == bytes;
        lemma_encoding_header(s);
        assert(bytes[0] == u32_le(s.len() as u32)[0]);
        assert(bytes[1] == u32_le(s.len() as u32)[1]);
        assert(bytes[2] == u32_le(s.len() as u32)[2]);
        assert(bytes[3] == u32_le(s.len() as u32)[3]);
        lemma_u32_le_round_trip(s.len() as u32);
        if bytes.len() == 4 + packed_len(u32_of_le(bytes[0], bytes[1], bytes[2], bytes[3]) as int) {
            let (j, k) = choose|j: int, k: u8|
                0 <= j && 4 + j < bytes.len() && k < 4 && #[trigger] field(bytes[4 + j], k) == 1;
            lemma_reserved_is_corrupt(bytes, j, k);
        }
    }
}

/// A pending or committed status record whose outputs part declares a count
/// that does not match its payload, or holds the reserved pattern, is refused:
/// the error of the outputs part is never repaired.
pub proof fn lemma_status_decode_rejects(bytes: Seq<u8>)
    requires
        bytes.len() >= 5,
        bytes[0] == 0x00 || bytes[0] == 0x01,
        ({
            let rest = bytes.drop_first();
            rest.len() != 4 + packed_len(u32_of_le(rest[0], rest[1], rest[2], rest[3]) as int)
                || exists|j: int, k: u8| 0 <= j && 4 + j < rest.len() && k < 4 && #[trigger] field(rest[4 + j], k) == 1
        }),
    ensures
        decode_status(bytes) is None,
{
    lemma_decode_rejects(bytes.drop_first());
}

/// Decoding the encoding of a transaction status gives the status back.
pub proof fn lemma_decode_encode_status(t: StatusModel)
    requires
        status_encodable(t),
    ensures
        decode_status(encode_status(t)) == Some(t),
{
    match t {
        StatusModel::Pending(s) => {
            assert((seq![0x00u8] + encode_outputs(s)).drop_first() =~= encode_outputs(s));
            lemma_decode_encode_outputs(s);
        },
        StatusModel::Committed(s) => {
            assert((seq![0x01u8] + encode_outputs(s)).drop_first() =~= encode_outputs(s));
            lemma_decode_encode_outputs(s);
        },
        StatusModel::Failed => {},
    }
}

impl TxStatus {
    /// A committed transaction with `cells_count` live outputs.
    pub fn new_committed(cells_count: usize) -> (r: Self)
        ensures
            r@ == StatusModel::Committed(all_live(cells_count as nat)),
    {
        let o = TxOutputsStatus::new_all_live(cells_count);
        assert(o@ =~= all_live(cells_count as nat));
        TxStatus::Committed(o)
    }

    /// True when no output is left to spend.
    pub fn is_invalid(&self) -> (r: bool)
        ensures
            r == status_invalid(self@),
    {
        match self {
            TxStatus::Pending(inner) => inner.is_invalid(),
            TxStatus::Committed(inner) => inner.is_invalid(),
            TxStatus::Failed => true,
        }
    }

    /// Marks output `cell_index` as spent; it must exist and be `Live`.
    pub fn spent(&mut self, cell_index: usize)
        requires
            status_can_spend(old(self)@, cell_index as int),
        ensures
            final(self)@ == status_spent(old(self)@, cell_index as int),
    {
        match self {
            TxStatus::Pending(inner) => inner.spent(cell_index),
            TxStatus::Committed(inner) => inner.spent(cell_index),
            TxStatus::Failed => {},
        }
    }

    pub fn copy(&self) -> (r: Self)
        ensures
            r@ == self@,
    {
        match self {
            TxStatus::Pending(inner) => TxStatus::Pending(inner.copy()),
            TxStatus::Committed(inner) => TxStatus::Committed(inner.copy()),
            TxStatus::Failed => TxStatus::Failed,
        }
    }

    pub fn is_failed(&self) -> (r: bool)
        ensures
            r == (self@ is Failed),
    {
        match self {
            TxStatus::Failed => true,
            _ => false,
        }
    }

    /// Reads an encoding made by `to_vec`; any other input is refused.
    pub fn from_slice(slice: &[u8]) -> (r: Result<Self, CorruptError>)
        ensures
            r matches Ok(t) ==> decode_status(slice@) == Some(t@),
            r is Err <==> decode_status(slice@) is None,
    {
        if slice.len() == 0 {
            return Err(CorruptError::TooShort);
        }
        let tag = slice[0];
        if tag == 0xff {
            return Ok(TxStatus::Failed);
        }
        if tag != 0x00 && tag != 0x01 {
            return Err(CorruptError::UnknownTag);
        }
        let (_, rest) = slice.split_at(1);
        assert(rest@ =~= slice@.drop_first());
        let inner = TxOutputsStatus::from_slice(rest)?;
        if tag == 0x00 {
            Ok(TxStatus::Pending(inner))
        } else {
            Ok(TxStatus::Committed(inner))
        }
    }

    /// The encoding of the status.
    pub fn to_vec(&self) -> (r: Vec<u8>)
        requires
            status_encodable(self@),
        ensures
            r@ == encode_status(self@),
    {
        let mut bytes: Vec<u8> = Vec::new();
        self.write_into(&mut bytes);
        assert(bytes@ =~= encode_status(self@));
        bytes
    }

    /// Appends the encoding of the status to `output`.
    pub fn write_into(&self, output: &mut Vec<u8>)
        requires
            status_encodable(self@),
        ensures
            final(output)@ == old(output)@ + encode_status(self@),
    {
        let ghost start = output@;
        match self {
            TxStatus::Pending(inner) => {
                output.push(0x00);
                inner.write_into(output);
            },
            TxStatus::Committed(inner) => {
                output.push(0x01);
                inner.write_into(output);
            },
            TxStatus::Failed => {
                output.push(0xff);
            },
        }
        assert(output@ =~= start + encode_status(self@));
    }
}

/// `n` outputs, all live.
pub open spec fn all_live(n: nat) -> Seq<CellStatus> {
    Seq::new(n, |i: int| CellStatus::Live)
}

/// A vector of `n` live entries has `n` live entries.
pub proof fn lemma_live_count_all_live(n: nat)
    ensures
        live_count(all_live(n)) == n,
    decreases n,
{
    if n > 0 {
        lemma_live_count_all_live((n - 1) as nat);
        assert(all_live(n).drop_last() =~= all_live((n - 1) as nat));
    }
}

} // verus!
