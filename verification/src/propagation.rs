//! LXMF propagation wire envelopes.
//!
//! Propagation-node discovery, client uploads and the `/get` mailbox exchange:
//! submitting one recipient-encrypted message, listing available transient
//! IDs, downloading selected messages, and acknowledging received messages.
use vstd::prelude::*;
use vstd::slice::slice_subrange;

use crate::bytemap::{same, to_array, to_vec};
use crate::constants::{DESTINATION_LENGTH, LXMF_OVERHEAD, STAMP_SIZE};
use crate::hash::full_hash;
use crate::ieee;
use crate::msgpack;

verus! {

/// Reticulum link request path used by a propagation client.
pub const MESSAGE_GET_PATH: &'static str = "/get";

/// SHA-256 identifier used to list, request, and acknowledge messages.
pub type TransientId = [u8; 32];

/// `(key, raw_msgpack_value)` entry in propagation-node announce metadata.
pub type MetadataEntry = (u64, Vec<u8>);

/// Errors returned by LXMF propagation codecs.
#[derive(Debug, Clone, Copy, PartialEq, Eq, Structural)]
pub enum PropagationError {
    Truncated,
    InvalidType,
    InvalidLength,
    /// The upload carried more than one message: the peer `/offer` sync form,
    /// not a client upload.
    MultipleMessages,
    InvalidValue,
    Overflow,
    TrailingData,
    WrongDestination,
    Decryption,
}

impl PropagationError {
    pub open spec fn text(self) -> Seq<char> {
        match self {
            PropagationError::Truncated => "truncated propagation data"@,
            PropagationError::InvalidType => "invalid propagation msgpack type"@,
            PropagationError::InvalidLength => "invalid propagation value length"@,
            PropagationError::MultipleMessages =>
                "multi-message propagation upload (peer /offer form)"@,
            PropagationError::InvalidValue => "invalid propagation value"@,
            PropagationError::Overflow => "propagation value exceeds codec limits"@,
            PropagationError::TrailingData => "trailing propagation data"@,
            PropagationError::WrongDestination => "propagation destination does not match"@,
            PropagationError::Decryption => "propagation decryption failed"@,
        }
    }

    pub fn message(&self) -> (r: &'static str)
        ensures
            r@ == self.text(),
    {
        match self {
            PropagationError::Truncated => "truncated propagation data",
            PropagationError::InvalidType => "invalid propagation msgpack type",
            PropagationError::InvalidLength => "invalid propagation value length",
            PropagationError::MultipleMessages =>
                "multi-message propagation upload (peer /offer form)",
            PropagationError::InvalidValue => "invalid propagation value",
            PropagationError::Overflow => "propagation value exceeds codec limits",
            PropagationError::TrailingData => "trailing propagation data",
            PropagationError::WrongDestination => "propagation destination does not match",
            PropagationError::Decryption => "propagation decryption failed",
        }
    }
}

/// The propagation error that a MessagePack error is reported as. Nesting that
/// is too deep exceeds a codec limit.
pub open spec fn lifted(e: msgpack::Error) -> PropagationError {
    match e {
        msgpack::Error::Truncated => PropagationError::Truncated,
        msgpack::Error::Type => PropagationError::InvalidType,
        msgpack::Error::Overflow => PropagationError::Overflow,
        msgpack::Error::Trailing => PropagationError::TrailingData,
        msgpack::Error::Depth => PropagationError::Overflow,
    }
}

pub open spec fn up<T>(r: Result<T, msgpack::Error>) -> Result<T, PropagationError> {
    match r {
        Ok(v) => Ok(v),
        Err(e) => Err(lifted(e)),
    }
}

impl From<msgpack::Error> for PropagationError {
    fn from(e: msgpack::Error) -> (r: Self) {
        match e {
            msgpack::Error::Truncated => PropagationError::Truncated,
            msgpack::Error::Type => PropagationError::InvalidType,
            msgpack::Error::Overflow => PropagationError::Overflow,
            msgpack::Error::Trailing => PropagationError::TrailingData,
            msgpack::Error::Depth => PropagationError::Overflow,
        }
    }
}

impl vstd::std_specs::convert::FromSpecImpl<msgpack::Error> for PropagationError {
    open spec fn obeys_from_spec() -> bool {
        true
    }

    open spec fn from_spec(e: msgpack::Error) -> Self {
        lifted(e)
    }
}

pub(crate) fn lift<T>(r: Result<T, msgpack::Error>) -> (q: Result<T, PropagationError>)
    ensures
        q == up(r),
{
    match r {
        Ok(v) => Ok(v),
        Err(e) => Err(PropagationError::from(e)),
    }
}

// ---------------------------------------------------------------------------
// Shared pieces
// ---------------------------------------------------------------------------

pub(crate) fn finish(bytes: &[u8], position: usize) -> (r: Result<(), PropagationError>)
    ensures
        if position == bytes@.len() {
            r is Ok
        } else {
            r == Err::<(), PropagationError>(PropagationError::TrailingData)
        },
{
    if position == bytes.len() {
        Ok(())
    } else {
        Err(PropagationError::TrailingData)
    }
}

/// A count of items that cannot all be there is refused before any is read.
pub open spec fn guarded(d: Seq<u8>, p: int, count: nat) -> bool {
    count <= d.len() - p || (count == 0 && p > d.len())
}

pub(crate) fn reserve_guard(bytes: &[u8], position: usize, count: usize) -> (r: Result<
    (),
    PropagationError,
>)
    ensures
        if guarded(bytes@, position as int, count as nat) {
            r is Ok
        } else {
            r == Err::<(), PropagationError>(PropagationError::InvalidLength)
        },
{
    if count > bytes.len().saturating_sub(position) {
        Err(PropagationError::InvalidLength)
    } else {
        Ok(())
    }
}

/// A bin value of exactly `n` bytes.
pub open spec fn fixed_at(d: Seq<u8>, p: int, n: nat) -> Result<(Seq<u8>, int), PropagationError> {
    match msgpack::bin_at(d, p) {
        Err(e) => Err(lifted(e)),
        Ok((s, q)) => if s.len() == n {
            Ok((s, q))
        } else {
            Err(PropagationError::InvalidLength)
        },
    }
}

pub(crate) fn decode_fixed_bin<const N: usize>(bytes: &[u8], position: &mut usize) -> (r: Result<
    [u8; N],
    PropagationError,
>)
    ensures
        match fixed_at(bytes@, *old(position) as int, N as nat) {
            Ok((s, q)) => r is Ok && r->Ok_0@ == s && *final(position) == q,
            Err(e) => r == Err::<[u8; N], PropagationError>(e),
        },
{
    let s = lift(msgpack::read_bin(bytes, position))?;
    match to_array::<N>(s) {
        Some(a) => Ok(a),
        None => Err(PropagationError::InvalidLength),
    }
}

/// Identifiers by their bytes.
pub open spec fn ids_view(ids: Seq<TransientId>) -> Seq<Seq<u8>> {
    ids.map_values(|a: TransientId| a@)
}

pub open spec fn opt_ids_view(ids: Option<Vec<TransientId>>) -> Option<Seq<Seq<u8>>> {
    match ids {
        Some(v) => Some(ids_view(v@)),
        None => None,
    }
}

/// A list of byte strings.
pub open spec fn bins_bytes(s: Seq<Seq<u8>>) -> Seq<u8> {
    msgpack::array_header((s.len() as u32) as nat) + msgpack::list_bytes(
        |v: Seq<u8>| msgpack::bin_bytes(v),
        s,
    )
}

pub open spec fn id_at(d: Seq<u8>) -> spec_fn(int) -> Result<(Seq<u8>, int), PropagationError> {
    |p: int| fixed_at(d, p, 32)
}

pub open spec fn value_at(d: Seq<u8>) -> spec_fn(int) -> Result<(Seq<u8>, int), PropagationError> {
    |p: int| up(msgpack::bin_at(d, p))
}

/// A counted list, each item read by `item`.
pub open spec fn counted_at(
    d: Seq<u8>,
    item: spec_fn(int) -> Result<(Seq<u8>, int), PropagationError>,
    p: int,
) -> Result<(Seq<Seq<u8>>, int), PropagationError> {
    match msgpack::array_len_at(d, p) {
        Err(e) => Err(lifted(e)),
        Ok((n, q)) => if guarded(d, q, n) {
            msgpack::list_at(item, q, n)
        } else {
            Err(PropagationError::InvalidLength)
        },
    }
}

pub open spec fn ids_at(d: Seq<u8>, p: int) -> Result<(Seq<Seq<u8>>, int), PropagationError> {
    counted_at(d, id_at(d), p)
}

pub open spec fn values_at(d: Seq<u8>, p: int) -> Result<(Seq<Seq<u8>>, int), PropagationError> {
    counted_at(d, value_at(d), p)
}

pub open spec fn opt_ids_bytes(ids: Option<Seq<Seq<u8>>>) -> Seq<u8> {
    match ids {
        Some(s) => bins_bytes(s),
        None => msgpack::nil_bytes(),
    }
}

pub open spec fn opt_ids_at(d: Seq<u8>, p: int) -> Result<
    (Option<Seq<Seq<u8>>>, int),
    PropagationError,
> {
    match msgpack::kind_at(d, p) {
        Err(e) => Err(lifted(e)),
        Ok(msgpack::Kind::Nil) => match msgpack::nil_at(d, p) {
            Err(e) => Err(lifted(e)),
            Ok((_, q)) => Ok((None, q)),
        },
        Ok(_) => match ids_at(d, p) {
            Err(e) => Err(e),
            Ok((s, q)) => Ok((Some(s), q)),
        },
    }
}

pub(crate) fn encode_ids(output: &mut Vec<u8>, ids: &[TransientId])
    ensures
        final(output)@ == old(output)@ + bins_bytes(ids_view(ids@)),
{
    msgpack::array(output, ids.len());
    let ghost head = output@;
    let ghost iv = ids_view(ids@);
    let ghost one = |v: Seq<u8>| msgpack::bin_bytes(v);
    let mut i: usize = 0;
    while i < ids.len()
        invariant
            i <= ids@.len(),
            iv == ids_view(ids@),
            one == (|v: Seq<u8>| msgpack::bin_bytes(v)),
            output@ == head + msgpack::list_bytes(one, iv.take(i as int)),
        decreases ids@.len() - i,
    {
        msgpack::bin(output, &ids[i]);
        proof {
            let t = iv.take(i + 1);
            assert(t.drop_last() =~= iv.take(i as int));
            assert(t.last() == iv[i as int]);
            assert(output@ =~= head + msgpack::list_bytes(one, t));
        }
        i = i + 1;
    }
    assert(iv.take(iv.len() as int) =~= iv);
    assert(output@ =~= old(output)@ + bins_bytes(iv));
}

pub(crate) fn decode_ids(bytes: &[u8], position: &mut usize) -> (r: Result<
    Vec<TransientId>,
    PropagationError,
>)
    ensures
        match ids_at(bytes@, *old(position) as int) {
            Ok((s, q)) => r is Ok && ids_view(r->Ok_0@) == s && *final(position) == q,
            Err(e) => r == Err::<Vec<TransientId>, PropagationError>(e),
        },
{
    let count: usize = lift(msgpack::array_len(bytes, position))?;
    reserve_guard(bytes, *position, count)?;
    let ghost start = *position as int;
    let mut ids: Vec<TransientId> = Vec::new();
    assert(ids_view(ids@) =~= Seq::empty());
    let mut i: usize = 0;
    while i < count
        invariant
            i <= count,
            msgpack::list_at(id_at(bytes@), start, i as nat) == Ok::<
                (Seq<Seq<u8>>, int),
                PropagationError,
            >((ids_view(ids@), *position as int)),
            ids_at(bytes@, *old(position) as int) == msgpack::list_at(
                id_at(bytes@),
                start,
                count as nat,
            ),
        decreases count - i,
    {
        proof {
            if msgpack::list_at(id_at(bytes@), start, (i + 1) as nat) is Err {
                msgpack::lemma_list_fails(id_at(bytes@), start, (i + 1) as nat, count as nat);
            }
        }
        let ghost before = ids_view(ids@);
        let id = decode_fixed_bin::<32>(bytes, position)?;
        ids.push(id);
        assert(ids_view(ids@) =~= before.push(id@));
        i = i + 1;
    }
    Ok(ids)
}

fn encode_optional_ids(output: &mut Vec<u8>, ids: &Option<Vec<TransientId>>)
    ensures
        final(output)@ == old(output)@ + opt_ids_bytes(opt_ids_view(*ids)),
{
    match ids {
        Some(ids) => encode_ids(output, ids.as_slice()),
        None => msgpack::nil(output),
    }
}

fn decode_optional_ids(bytes: &[u8], position: &mut usize) -> (r: Result<
    Option<Vec<TransientId>>,
    PropagationError,
>)
    ensures
        match opt_ids_at(bytes@, *old(position) as int) {
            Ok((s, q)) => r is Ok && opt_ids_view(r->Ok_0) == s && *final(position) == q,
            Err(e) => r == Err::<Option<Vec<TransientId>>, PropagationError>(e),
        },
{
    let kind = lift(msgpack::peek_kind(bytes, *position))?;
    if kind == msgpack::Kind::Nil {
        lift(msgpack::read_nil(bytes, position))?;
        Ok(None)
    } else {
        let ids = decode_ids(bytes, position)?;
        Ok(Some(ids))
    }
}

/// Byte strings by their bytes.
pub open spec fn values_view(values: Seq<Vec<u8>>) -> Seq<Seq<u8>> {
    values.map_values(|v: Vec<u8>| v@)
}

pub(crate) fn encode_binary_list(output: &mut Vec<u8>, values: &Vec<Vec<u8>>)
    ensures
        final(output)@ == old(output)@ + bins_bytes(values_view(values@)),
{
    msgpack::array(output, values.len());
    let ghost head = output@;
    let ghost iv = values_view(values@);
    let ghost one = |v: Seq<u8>| msgpack::bin_bytes(v);
    let mut i: usize = 0;
    while i < values.len()
        invariant
            i <= values@.len(),
            iv == values_view(values@),
            one == (|v: Seq<u8>| msgpack::bin_bytes(v)),
            output@ == head + msgpack::list_bytes(one, iv.take(i as int)),
        decreases values@.len() - i,
    {
        msgpack::bin(output, values[i].as_slice());
        proof {
            let t = iv.take(i + 1);
            assert(t.drop_last() =~= iv.take(i as int));
            assert(t.last() == iv[i as int]);
            assert(output@ =~= head + msgpack::list_bytes(one, t));
        }
        i = i + 1;
    }
    assert(iv.take(iv.len() as int) =~= iv);
    assert(output@ =~= old(output)@ + bins_bytes(iv));
}

pub(crate) fn decode_binary_list(bytes: &[u8], position: &mut usize) -> (r: Result<
    Vec<Vec<u8>>,
    PropagationError,
>)
    ensures
        match values_at(bytes@, *old(position) as int) {
            Ok((s, q)) => r is Ok && values_view(r->Ok_0@) == s && *final(position) == q,
            Err(e) => r == Err::<Vec<Vec<u8>>, PropagationError>(e),
        },
{
    let count: usize = lift(msgpack::array_len(bytes, position))?;
    reserve_guard(bytes, *position, count)?;
    let ghost start = *position as int;
    let mut values: Vec<Vec<u8>> = Vec::new();
    assert(values_view(values@) =~= Seq::empty());
    let mut i: usize = 0;
    while i < count
        invariant
            i <= count,
            msgpack::list_at(value_at(bytes@), start, i as nat) == Ok::<
                (Seq<Seq<u8>>, int),
                PropagationError,
            >((values_view(values@), *position as int)),
            values_at(bytes@, *old(position) as int) == msgpack::list_at(
                value_at(bytes@),
                start,
                count as nat,
            ),
        decreases count - i,
    {
        proof {
            if msgpack::list_at(value_at(bytes@), start, (i + 1) as nat) is Err {
                msgpack::lemma_list_fails(value_at(bytes@), start, (i + 1) as nat, count as nat);
            }
        }
        let ghost before = values_view(values@);
        let v = to_vec(lift(msgpack::read_bin(bytes, position))?);
        values.push(v);
        assert(values_view(values@) =~= before.push(v@));
        i = i + 1;
    }
    Ok(values)
}

// ---------------------------------------------------------------------------
// Uploads
// ---------------------------------------------------------------------------

/// What an upload carries. The timestamp is a binary64 bit pattern.
pub ghost struct Upload {
    pub timestamp: u64,
    pub unstamped: Seq<u8>,
    pub stamp: Seq<u8>,
}

/// The wire form `[timestamp, [unstamped || stamp]]`.
pub open spec fn upload_bytes(u: Upload) -> Seq<u8> {
    msgpack::array_header(2) + msgpack::double_bytes(u.timestamp) + msgpack::array_header(1)
        + msgpack::bin_bytes(u.unstamped + u.stamp)
}

/// The upload in a byte string. Bytes behind the envelope are ignored.
pub open spec fn upload_of(d: Seq<u8>) -> Result<Upload, PropagationError> {
    match msgpack::array_len_at(d, 0) {
        Err(e) => Err(lifted(e)),
        Ok((n, p0)) => if n != 2 {
            Err(PropagationError::InvalidLength)
        } else {
            match msgpack::number_bits_at(d, p0) {
                Err(e) => Err(lifted(e)),
                Ok((timestamp, p1)) => match msgpack::array_len_at(d, p1) {
                    Err(e) => Err(lifted(e)),
                    Ok((k, p2)) => if k == 0 {
                        Err(PropagationError::InvalidLength)
                    } else if k > 1 {
                        Err(PropagationError::MultipleMessages)
                    } else {
                        match msgpack::bin_at(d, p2) {
                            Err(e) => Err(lifted(e)),
                            Ok((s, _)) => if s.len() <= DESTINATION_LENGTH + STAMP_SIZE {
                                Err(PropagationError::InvalidLength)
                            } else {
                                Ok(
                                    Upload {
                                        timestamp,
                                        unstamped: s.take(s.len() - STAMP_SIZE),
                                        stamp: s.skip(s.len() - STAMP_SIZE),
                                    },
                                )
                            },
                        }
                    },
                },
            }
        },
    }
}

/// One propagation-node upload.
///
/// `unstamped_lxmf` is `destination_hash || destination.encrypt(packed[16..])`.
/// The transient ID hashes those bytes before the independent 32-byte
/// propagation-node stamp is appended.
#[derive(Debug, Clone, PartialEq, Eq)]
pub struct PropagationUpload {
    timestamp: u64,
    unstamped_lxmf: Vec<u8>,
    propagation_stamp: [u8; STAMP_SIZE],
    transient_id: TransientId,
}

impl View for PropagationUpload {
    type V = Upload;

    closed spec fn view(&self) -> Upload {
        Upload {
            timestamp: self.timestamp,
            unstamped: self.unstamped_lxmf@,
            stamp: self.propagation_stamp@,
        }
    }
}

impl PropagationUpload {
    pub closed spec fn id(&self) -> Seq<u8> {
        self.transient_id@
    }

    /// The transient ID is the digest of the unstamped bytes.
    pub open spec fn wf(&self) -> bool {
        self.id() == crate::hash::sha256(self@.unstamped)
    }

    /// The singleton envelope of an originating client.
    pub fn single(
        timestamp: u64,
        unstamped_lxmf: Vec<u8>,
        propagation_stamp: [u8; STAMP_SIZE],
    ) -> (r: PropagationUpload)
        ensures
            r.wf(),
            r@ == (Upload {
                timestamp,
                unstamped: unstamped_lxmf@,
                stamp: propagation_stamp@,
            }),
    {
        let transient_id = full_hash(&unstamped_lxmf);
        PropagationUpload { timestamp, unstamped_lxmf, propagation_stamp, transient_id }
    }

    pub fn timestamp(&self) -> (r: u64)
        ensures
            r == self@.timestamp,
    {
        self.timestamp
    }

    pub fn unstamped_lxmf(&self) -> (r: &[u8])
        ensures
            r@ == self@.unstamped,
    {
        self.unstamped_lxmf.as_slice()
    }

    pub fn propagation_stamp(&self) -> (r: &[u8; STAMP_SIZE])
        ensures
            r@ == self@.stamp,
    {
        &self.propagation_stamp
    }

    pub fn transient_id(&self) -> (r: &TransientId)
        ensures
            r@ == self.id(),
    {
        &self.transient_id
    }

    /// The MessagePack body sent as raw Link data or a Resource.
    pub fn encode(&self) -> (r: Vec<u8>)
        ensures
            r@ == upload_bytes(self@),
    {
        let mut stamped: Vec<u8> = Vec::new();
        stamped.extend_from_slice(&self.unstamped_lxmf);
        stamped.extend_from_slice(&self.propagation_stamp);
        assert(stamped@ =~= self@.unstamped + self@.stamp);
        let mut output: Vec<u8> = Vec::new();
        msgpack::array(&mut output, 2);
        msgpack::double(&mut output, self.timestamp);
        msgpack::array(&mut output, 1);
        msgpack::bin(&mut output, &stamped);
        assert(output@ =~= upload_bytes(self@));
        output
    }

    /// Decodes an upload envelope received off the wire.
    ///
    /// Only the singleton envelope an originating client sends is accepted.
    /// The multi-message form belongs to the node-to-node `/offer` sync and is
    /// reported as [`PropagationError::MultipleMessages`].
    pub fn decode(bytes: &[u8]) -> (r: Result<PropagationUpload, PropagationError>)
        ensures
            match upload_of(bytes@) {
                Ok(u) => r is Ok && r->Ok_0@ == u && r->Ok_0.wf(),
                Err(e) => r == Err::<PropagationUpload, PropagationError>(e),
            },
    {
        let mut position: usize = 0;
        let n: usize = lift(msgpack::array_len(bytes, &mut position))?;
        if n != 2 {
            return Err(PropagationError::InvalidLength);
        }
        let timestamp: u64 = lift(msgpack::read_number_f64(bytes, &mut position))?;
        let k: usize = lift(msgpack::array_len(bytes, &mut position))?;
        if k == 0 {
            return Err(PropagationError::InvalidLength);
        }
        if k > 1 {
            return Err(PropagationError::MultipleMessages);
        }
        let stamped = lift(msgpack::read_bin(bytes, &mut position))?;
        if stamped.len() <= DESTINATION_LENGTH + STAMP_SIZE {
            return Err(PropagationError::InvalidLength);
        }
        let cut: usize = stamped.len() - STAMP_SIZE;
        let unstamped = to_vec(slice_subrange(stamped, 0, cut));
        let stamp = to_array::<STAMP_SIZE>(slice_subrange(stamped, cut, stamped.len()));
        assert(stamped@.subrange(0, cut as int) =~= stamped@.take(cut as int));
        assert(stamped@.subrange(cut as int, stamped@.len() as int) =~= stamped@.skip(cut as int));
        match stamp {
            Some(stamp) => Ok(PropagationUpload::single(timestamp, unstamped, stamp)),
            None => Err(PropagationError::InvalidLength),
        }
    }
}

/// A node decodes the upload that a client encoded.
pub proof fn law_upload_round_trip(u: Upload)
    requires
        u.stamp.len() == STAMP_SIZE,
        DESTINATION_LENGTH < u.unstamped.len() <= u32::MAX - STAMP_SIZE,
        upload_bytes(u).len() <= usize::MAX,
    ensures
        upload_of(upload_bytes(u)) == Ok::<Upload, PropagationError>(u),
{
    let d = upload_bytes(u);
    let h0 = msgpack::array_header(2);
    let h1 = msgpack::double_bytes(u.timestamp);
    let h2 = msgpack::array_header(1);
    let s = u.unstamped + u.stamp;
    msgpack::lemma_at_whole(d);
    msgpack::lemma_at_concat(d, 0, h0 + h1 + h2, msgpack::bin_bytes(s));
    msgpack::lemma_at_concat(d, 0, h0 + h1, h2);
    msgpack::lemma_at_concat(d, 0, h0, h1);
    let p0 = h0.len() as int;
    let p1 = p0 + h1.len();
    let p2 = p1 + h2.len();
    msgpack::law_array_header(d, 0, 2);
    msgpack::law_double(d, p0, u.timestamp, 0);
    msgpack::law_array_header(d, p1, 1);
    msgpack::law_bin(d, p2, s, 0);
    assert(s.take(s.len() - STAMP_SIZE) =~= u.unstamped);
    assert(s.skip(s.len() - STAMP_SIZE) =~= u.stamp);
}

// ---------------------------------------------------------------------------
// Error values and signals
// ---------------------------------------------------------------------------

/// Error values returned by a propagation endpoint.
#[derive(Debug, Clone, Copy, PartialEq, Eq, Structural)]
pub enum PeerError {
    NoIdentity,
    NoAccess,
    InvalidKey,
    InvalidData,
    InvalidStamp,
    Throttled,
    NotFound,
    Timeout,
}

impl PeerError {
    pub open spec fn spec_code(self) -> u8 {
        match self {
            PeerError::NoIdentity => 0xf0,
            PeerError::NoAccess => 0xf1,
            PeerError::InvalidKey => 0xf3,
            PeerError::InvalidData => 0xf4,
            PeerError::InvalidStamp => 0xf5,
            PeerError::Throttled => 0xf6,
            PeerError::NotFound => 0xfd,
            PeerError::Timeout => 0xfe,
        }
    }

    /// The on-wire code of an error response.
    pub fn code(self) -> (r: u8)
        ensures
            r == self.spec_code(),
    {
        match self {
            PeerError::NoIdentity => 0xf0,
            PeerError::NoAccess => 0xf1,
            PeerError::InvalidKey => 0xf3,
            PeerError::InvalidData => 0xf4,
            PeerError::InvalidStamp => 0xf5,
            PeerError::Throttled => 0xf6,
            PeerError::NotFound => 0xfd,
            PeerError::Timeout => 0xfe,
        }
    }
}

/// The error that a code stands for.
pub open spec fn peer_error_of(value: u64) -> Result<PeerError, PropagationError> {
    match value {
        0xf0 => Ok(PeerError::NoIdentity),
        0xf1 => Ok(PeerError::NoAccess),
        0xf3 => Ok(PeerError::InvalidKey),
        0xf4 => Ok(PeerError::InvalidData),
        0xf5 => Ok(PeerError::InvalidStamp),
        0xf6 => Ok(PeerError::Throttled),
        0xfd => Ok(PeerError::NotFound),
        0xfe => Ok(PeerError::Timeout),
        _ => Err(PropagationError::InvalidValue),
    }
}

impl TryFrom<u64> for PeerError {
    type Error = PropagationError;

    fn try_from(value: u64) -> (r: Result<Self, PropagationError>) {
        match value {
            0xf0 => Ok(PeerError::NoIdentity),
            0xf1 => Ok(PeerError::NoAccess),
            0xf3 => Ok(PeerError::InvalidKey),
            0xf4 => Ok(PeerError::InvalidData),
            0xf5 => Ok(PeerError::InvalidStamp),
            0xf6 => Ok(PeerError::Throttled),
            0xfd => Ok(PeerError::NotFound),
            0xfe => Ok(PeerError::Timeout),
            _ => Err(PropagationError::InvalidValue),
        }
    }
}

impl vstd::std_specs::convert::TryFromSpecImpl<u64> for PeerError {
    open spec fn obeys_try_from_spec() -> bool {
        true
    }

    open spec fn try_from_spec(value: u64) -> Result<Self, PropagationError> {
        peer_error_of(value)
    }
}

/// Reading the code of an error gives back the error, and no code stands for
/// two errors.
pub proof fn law_peer_error_codes(e: PeerError, value: u64)
    ensures
        peer_error_of(e.spec_code() as u64) == Ok::<PeerError, PropagationError>(e),
        peer_error_of(value) matches Ok(f) ==> f.spec_code() == value,
{
}

/// An error value at a position.
pub open spec fn peer_error_at(d: Seq<u8>, p: int) -> Result<(PeerError, int), PropagationError> {
    match msgpack::uint_at(d, p) {
        Err(e) => Err(lifted(e)),
        Ok((v, q)) => match peer_error_of(v) {
            Err(e) => Err(e),
            Ok(f) => Ok((f, q)),
        },
    }
}

pub(crate) fn read_peer_error(bytes: &[u8], position: &mut usize) -> (r: Result<
    PeerError,
    PropagationError,
>)
    ensures
        match peer_error_at(bytes@, *old(position) as int) {
            Ok((f, q)) => r == Ok::<PeerError, PropagationError>(f) && *final(position) == q,
            Err(e) => r == Err::<PeerError, PropagationError>(e),
        },
{
    let v: u64 = lift(msgpack::read_uint(bytes, position))?;
    PeerError::try_from(v)
}

/// Unsolicited Link signalling sent by a propagation node for an upload.
#[derive(Debug, Clone, Copy, PartialEq, Eq, Structural)]
pub enum PropagationSignal {
    /// The node rejected one or more messages because the outer propagation
    /// stamp did not satisfy its advertised cost.
    InvalidStamp,
}

pub open spec fn signal_bytes() -> Seq<u8> {
    msgpack::array_header(1) + msgpack::uint_bytes(0xf5)
}

pub open spec fn signal_of(d: Seq<u8>) -> Result<PropagationSignal, PropagationError> {
    match msgpack::array_len_at(d, 0) {
        Err(e) => Err(lifted(e)),
        Ok((n, p)) => if n != 1 {
            Err(PropagationError::InvalidLength)
        } else {
            match peer_error_at(d, p) {
                Err(e) => Err(e),
                Ok((f, q)) => if f != PeerError::InvalidStamp {
                    Err(PropagationError::InvalidValue)
                } else if q != d.len() {
                    Err(PropagationError::TrailingData)
                } else {
                    Ok(PropagationSignal::InvalidStamp)
                },
            }
        },
    }
}

impl PropagationSignal {
    /// The signalling packet a node sends when it refuses an upload.
    pub fn encode(&self) -> (r: Vec<u8>)
        ensures
            r@ == signal_bytes(),
    {
        let mut output: Vec<u8> = Vec::new();
        msgpack::array(&mut output, 1);
        match self {
            PropagationSignal::InvalidStamp => msgpack::uint(
                &mut output,
                PeerError::InvalidStamp.code() as u64,
            ),
        }
        assert(output@ =~= signal_bytes());
        output
    }

    pub fn decode(bytes: &[u8]) -> (r: Result<PropagationSignal, PropagationError>)
        ensures
            r == signal_of(bytes@),
    {
        let mut position: usize = 0;
        let n: usize = lift(msgpack::array_len(bytes, &mut position))?;
        if n != 1 {
            return Err(PropagationError::InvalidLength);
        }
        let error = read_peer_error(bytes, &mut position)?;
        let signal = match error {
            PeerError::InvalidStamp => PropagationSignal::InvalidStamp,
            _ => {
                return Err(PropagationError::InvalidValue);
            },
        };
        finish(bytes, position)?;
        Ok(signal)
    }
}

/// A client reads the signal that a node sent.
pub proof fn law_signal_round_trip()
    ensures
        signal_of(signal_bytes()) == Ok::<PropagationSignal, PropagationError>(
            PropagationSignal::InvalidStamp,
        ),
{
    let d = signal_bytes();
    let h0 = msgpack::array_header(1);
    reveal(msgpack::array_header);
    reveal(msgpack::uint_bytes);
    reveal_with_fuel(msgpack::be_bytes, 2);
    msgpack::lemma_at_whole(d);
    msgpack::lemma_at_concat(d, 0, h0, msgpack::uint_bytes(0xf5));
    msgpack::law_array_header(d, 0, 1);
    msgpack::law_uint(d, h0.len() as int, 0xf5);
}

// ---------------------------------------------------------------------------
// Downloaded messages
// ---------------------------------------------------------------------------

/// Unstamped, destination-encrypted LXMF bytes downloaded from a propagation
/// node.
#[derive(Debug, Clone, PartialEq, Eq)]
pub struct PropagatedMessage {
    destination_hash: [u8; DESTINATION_LENGTH],
    encrypted_payload: Vec<u8>,
}

impl View for PropagatedMessage {
    type V = (Seq<u8>, Seq<u8>);

    /// The clear destination hash and the encrypted payload.
    closed spec fn view(&self) -> (Seq<u8>, Seq<u8>) {
        (self.destination_hash@, self.encrypted_payload@)
    }
}

impl PropagatedMessage {
    /// Parses unstamped `destination_hash || encrypted_payload` bytes. Exactly
    /// `LXMF_OVERHEAD` bytes is refused: a node holds a body only when it is
    /// strictly longer.
    pub fn from_unstamped_bytes(bytes: &[u8]) -> (r: Result<PropagatedMessage, PropagationError>)
        ensures
            if bytes@.len() <= LXMF_OVERHEAD {
                r == Err::<PropagatedMessage, PropagationError>(PropagationError::InvalidLength)
            } else {
                r is Ok && r->Ok_0@ == (bytes@.take(16), bytes@.skip(16))
            },
    {
        if bytes.len() <= LXMF_OVERHEAD {
            return Err(PropagationError::InvalidLength);
        }
        let head = slice_subrange(bytes, 0, DESTINATION_LENGTH);
        let tail = slice_subrange(bytes, DESTINATION_LENGTH, bytes.len());
        assert(head@ =~= bytes@.take(16));
        assert(tail@ =~= bytes@.skip(16));
        match to_array::<DESTINATION_LENGTH>(head) {
            Some(destination_hash) => Ok(
                PropagatedMessage { destination_hash, encrypted_payload: to_vec(tail) },
            ),
            None => Err(PropagationError::InvalidLength),
        }
    }

    pub fn destination_hash(&self) -> (r: &[u8; DESTINATION_LENGTH])
        ensures
            r@ == self@.0,
    {
        &self.destination_hash
    }

    /// The bytes that the destination decrypts.
    pub fn encrypted_payload(&self) -> (r: &[u8])
        ensures
            r@ == self@.1,
    {
        self.encrypted_payload.as_slice()
    }

    /// Reconstructs the packed LXMF message for `destination`, from what
    /// decrypting the payload there gave.
    pub fn decrypt(
        &self,
        destination: &[u8; DESTINATION_LENGTH],
        plaintext: Option<&[u8]>,
    ) -> (r: Result<Vec<u8>, PropagationError>)
        ensures
            unsealed(self@, destination@, plaintext, r),
    {
        if !same(&self.destination_hash, destination) {
            proof {
                if self.destination_hash@ == destination@ {
                    crate::bytemap::lemma_array_injective(self.destination_hash, *destination);
                }
            }
            return Err(PropagationError::WrongDestination);
        }
        match plaintext {
            None => Err(PropagationError::Decryption),
            Some(t) => {
                let mut packed: Vec<u8> = Vec::new();
                packed.extend_from_slice(&self.destination_hash);
                packed.extend_from_slice(t);
                assert(packed@ =~= self@.0 + t@);
                Ok(packed)
            },
        }
    }
}

// ---------------------------------------------------------------------------
// The `/get` exchange
// ---------------------------------------------------------------------------

/// Numeric representation of the optional `/get` transfer limit. A float is
/// its binary64 bit pattern.
#[derive(Debug, Clone, Copy, PartialEq, Eq, Structural)]
pub enum TransferLimit {
    Integer(u64),
    Float(u64),
}

pub open spec fn transfer_limit_bytes(l: TransferLimit) -> Seq<u8> {
    match l {
        TransferLimit::Integer(v) => msgpack::uint_bytes(v as nat),
        TransferLimit::Float(v) => msgpack::double_bytes(v),
    }
}

pub open spec fn transfer_limit_at(d: Seq<u8>, p: int) -> Result<
    (TransferLimit, int),
    PropagationError,
> {
    match msgpack::kind_at(d, p) {
        Err(e) => Err(lifted(e)),
        Ok(msgpack::Kind::Float) => match msgpack::number_bits_at(d, p) {
            Err(e) => Err(lifted(e)),
            Ok((v, q)) => Ok((TransferLimit::Float(v), q)),
        },
        Ok(_) => match msgpack::uint_at(d, p) {
            Err(e) => Err(lifted(e)),
            Ok((v, q)) => Ok((TransferLimit::Integer(v), q)),
        },
    }
}

fn decode_transfer_limit(bytes: &[u8], position: &mut usize) -> (r: Result<
    TransferLimit,
    PropagationError,
>)
    ensures
        match transfer_limit_at(bytes@, *old(position) as int) {
            Ok((l, q)) => r == Ok::<TransferLimit, PropagationError>(l) && *final(position) == q,
            Err(e) => r == Err::<TransferLimit, PropagationError>(e),
        },
{
    let kind = lift(msgpack::peek_kind(bytes, *position))?;
    if kind == msgpack::Kind::Float {
        let v: u64 = lift(msgpack::read_number_f64(bytes, position))?;
        Ok(TransferLimit::Float(v))
    } else {
        let v: u64 = lift(msgpack::read_uint(bytes, position))?;
        Ok(TransferLimit::Integer(v))
    }
}

/// `/get` request: `[wants, haves]` or `[wants, haves, limit_kb]`.
#[derive(Debug, Clone, PartialEq, Eq)]
pub struct MessageGetRequest {
    pub wants: Option<Vec<TransientId>>,
    pub haves: Option<Vec<TransientId>>,
    pub transfer_limit_kb: Option<TransferLimit>,
}

/// What a `/get` request asks for.
pub ghost struct GetRequest {
    pub wants: Option<Seq<Seq<u8>>>,
    pub haves: Option<Seq<Seq<u8>>>,
    pub limit: Option<TransferLimit>,
}

impl View for MessageGetRequest {
    type V = GetRequest;

    open spec fn view(&self) -> GetRequest {
        GetRequest {
            wants: opt_ids_view(self.wants),
            haves: opt_ids_view(self.haves),
            limit: self.transfer_limit_kb,
        }
    }
}

pub open spec fn get_request_bytes(g: GetRequest) -> Seq<u8> {
    msgpack::array_header(
        if g.limit is Some {
            3
        } else {
            2
        },
    ) + opt_ids_bytes(g.wants) + opt_ids_bytes(g.haves) + (match g.limit {
        Some(l) => transfer_limit_bytes(l),
        None => Seq::empty(),
    })
}

pub open spec fn opt_limit_at(d: Seq<u8>, p: int, n: nat) -> Result<
    (Option<TransferLimit>, int),
    PropagationError,
> {
    if n == 3 {
        match transfer_limit_at(d, p) {
            Err(e) => Err(e),
            Ok((l, q)) => Ok((Some(l), q)),
        }
    } else {
        Ok((None, p))
    }
}

pub open spec fn get_request_of(d: Seq<u8>) -> Result<GetRequest, PropagationError> {
    match msgpack::array_len_at(d, 0) {
        Err(e) => Err(lifted(e)),
        Ok((n, p0)) => if n != 2 && n != 3 {
            Err(PropagationError::InvalidLength)
        } else {
            match opt_ids_at(d, p0) {
                Err(e) => Err(e),
                Ok((wants, p1)) => match opt_ids_at(d, p1) {
                    Err(e) => Err(e),
                    Ok((haves, p2)) => match opt_limit_at(d, p2, n) {
                        Err(e) => Err(e),
                        Ok((limit, p3)) => if p3 != d.len() {
                            Err(PropagationError::TrailingData)
                        } else {
                            Ok(GetRequest { wants, haves, limit })
                        },
                    },
                },
            }
        },
    }
}

/// A request on the wire asks for at most as many messages as a count holds.
pub proof fn lemma_wants_limit(d: Seq<u8>)
    ensures
        get_request_of(d) matches Ok(g) ==> (g.wants matches Some(w) ==> w.len() <= u32::MAX),
{
    msgpack::lemma_array_len_limit(d, 0);
    if let Ok((_, p)) = msgpack::array_len_at(d, 0) {
        msgpack::lemma_array_len_limit(d, p);
        if let Ok((n, q)) = msgpack::array_len_at(d, p) {
            msgpack::lemma_list_len(id_at(d), q, n);
        }
    }
}

impl MessageGetRequest {
    /// The initial mailbox listing.
    pub fn list() -> (r: MessageGetRequest)
        ensures
            r@ == (GetRequest { wants: None, haves: None, limit: None }),
    {
        MessageGetRequest { wants: None, haves: None, transfer_limit_kb: None }
    }

    /// Sent after messages were received.
    pub fn acknowledge(haves: Vec<TransientId>) -> (r: MessageGetRequest)
        ensures
            r@ == (GetRequest { wants: None, haves: Some(ids_view(haves@)), limit: None }),
    {
        MessageGetRequest { wants: None, haves: Some(haves), transfer_limit_kb: None }
    }

    pub fn encode(&self) -> (r: Result<Vec<u8>, PropagationError>)
        ensures
            r is Ok,
            r->Ok_0@ == get_request_bytes(self@),
    {
        let mut output: Vec<u8> = Vec::new();
        msgpack::array(
            &mut output,
            if self.transfer_limit_kb.is_some() {
                3
            } else {
                2
            },
        );
        encode_optional_ids(&mut output, &self.wants);
        encode_optional_ids(&mut output, &self.haves);
        if let Some(limit) = self.transfer_limit_kb {
            match limit {
                TransferLimit::Integer(value) => msgpack::uint(&mut output, value),
                TransferLimit::Float(value) => msgpack::double(&mut output, value),
            }
        }
        assert(output@ =~= get_request_bytes(self@));
        Ok(output)
    }

    pub fn decode(bytes: &[u8]) -> (r: Result<MessageGetRequest, PropagationError>)
        ensures
            match get_request_of(bytes@) {
                Ok(g) => r is Ok && r->Ok_0@ == g,
                Err(e) => r == Err::<MessageGetRequest, PropagationError>(e),
            },
    {
        let mut position: usize = 0;
        let count: usize = lift(msgpack::array_len(bytes, &mut position))?;
        if count != 2 && count != 3 {
            return Err(PropagationError::InvalidLength);
        }
        let wants = decode_optional_ids(bytes, &mut position)?;
        let haves = decode_optional_ids(bytes, &mut position)?;
        let transfer_limit_kb = if count == 3 {
            let l = decode_transfer_limit(bytes, &mut position)?;
            Some(l)
        } else {
            None
        };
        finish(bytes, position)?;
        Ok(MessageGetRequest { wants, haves, transfer_limit_kb })
    }
}

/// A list of byte strings reads back as it was written.
pub proof fn law_bins(
    d: Seq<u8>,
    item: spec_fn(int) -> Result<(Seq<u8>, int), PropagationError>,
    p: int,
    s: Seq<Seq<u8>>,
)
    requires
        msgpack::at(d, p, bins_bytes(s)),
        s.len() <= u32::MAX,
        forall|i: int| 0 <= i < s.len() ==> (#[trigger] s[i]).len() <= u32::MAX,
        forall|i: int, q: int|
            0 <= i < s.len() && #[trigger] msgpack::at(d, q, msgpack::bin_bytes(s[i])) ==> item(q)
                == Ok::<(Seq<u8>, int), PropagationError>(
                (s[i], q + msgpack::bin_bytes(s[i]).len()),
            ),
    ensures
        counted_at(d, item, p) == Ok::<(Seq<Seq<u8>>, int), PropagationError>(
            (s, p + bins_bytes(s).len()),
        ),
        msgpack::kind_at(d, p) == Ok::<msgpack::Kind, msgpack::Error>(msgpack::Kind::Array),
{
    let one = |v: Seq<u8>| msgpack::bin_bytes(v);
    let h = msgpack::array_header(s.len());
    msgpack::lemma_at_concat(d, p, h, msgpack::list_bytes(one, s));
    msgpack::law_array_header(d, p, s.len());
    lemma_bins_len(s);
    assert forall|i: int, q: int|
        0 <= i < s.len() && #[trigger] msgpack::at(d, q, one(s[i])) implies item(q) == Ok::<
        (Seq<u8>, int),
        PropagationError,
    >((s[i], q + one(s[i]).len())) by {
        assert(msgpack::at(d, q, msgpack::bin_bytes(s[i])));
    }
    msgpack::law_list(d, item, one, p + h.len(), s);
}

/// Every byte string takes at least its header.
proof fn lemma_bins_len(s: Seq<Seq<u8>>)
    ensures
        msgpack::list_bytes(|v: Seq<u8>| msgpack::bin_bytes(v), s).len() >= s.len(),
    decreases s.len(),
{
    if s.len() > 0 {
        lemma_bins_len(s.drop_last());
        reveal(msgpack::bin_head);
    }
}

/// All identifiers have the length of a digest, and their number fits a
/// header.
pub open spec fn ids_ok(ids: Seq<Seq<u8>>) -> bool {
    &&& ids.len() <= u32::MAX
    &&& forall|i: int| 0 <= i < ids.len() ==> (#[trigger] ids[i]).len() == 32
}

/// A list of identifiers reads back as it was written.
pub proof fn law_ids(d: Seq<u8>, p: int, s: Seq<Seq<u8>>)
    requires
        msgpack::at(d, p, bins_bytes(s)),
        ids_ok(s),
    ensures
        ids_at(d, p) == Ok::<(Seq<Seq<u8>>, int), PropagationError>((s, p + bins_bytes(s).len())),
        msgpack::kind_at(d, p) == Ok::<msgpack::Kind, msgpack::Error>(msgpack::Kind::Array),
{
    assert forall|i: int, q: int|
        0 <= i < s.len() && #[trigger] msgpack::at(d, q, msgpack::bin_bytes(s[i])) implies id_at(d)(
        q,
    ) == Ok::<(Seq<u8>, int), PropagationError>((s[i], q + msgpack::bin_bytes(s[i]).len())) by {
        msgpack::law_bin(d, q, s[i], 0);
    }
    law_bins(d, id_at(d), p, s);
}

/// An optional list of identifiers reads back as it was written.
pub proof fn law_opt_ids(d: Seq<u8>, p: int, s: Option<Seq<Seq<u8>>>)
    requires
        msgpack::at(d, p, opt_ids_bytes(s)),
        s matches Some(ids) ==> ids_ok(ids),
    ensures
        opt_ids_at(d, p) == Ok::<(Option<Seq<Seq<u8>>>, int), PropagationError>(
            (s, p + opt_ids_bytes(s).len()),
        ),
{
    match s {
        None => msgpack::law_nil(d, p, 0),
        Some(ids) => law_ids(d, p, ids),
    }
}

/// A node decodes the request that a client encoded.
pub proof fn law_get_request_round_trip(g: GetRequest)
    requires
        g.wants matches Some(ids) ==> ids_ok(ids),
        g.haves matches Some(ids) ==> ids_ok(ids),
        get_request_bytes(g).len() <= usize::MAX,
    ensures
        get_request_of(get_request_bytes(g)) == Ok::<GetRequest, PropagationError>(g),
{
    let d = get_request_bytes(g);
    let n: nat = if g.limit is Some {
        3
    } else {
        2
    };
    let h0 = msgpack::array_header(n);
    let h1 = opt_ids_bytes(g.wants);
    let h2 = opt_ids_bytes(g.haves);
    let h3 = match g.limit {
        Some(l) => transfer_limit_bytes(l),
        None => Seq::empty(),
    };
    msgpack::lemma_at_whole(d);
    msgpack::lemma_at_concat(d, 0, h0 + h1 + h2, h3);
    msgpack::lemma_at_concat(d, 0, h0 + h1, h2);
    msgpack::lemma_at_concat(d, 0, h0, h1);
    let p0 = h0.len() as int;
    let p1 = p0 + h1.len();
    let p2 = p1 + h2.len();
    msgpack::law_array_header(d, 0, n);
    law_opt_ids(d, p0, g.wants);
    law_opt_ids(d, p1, g.haves);
    match g.limit {
        Some(TransferLimit::Integer(v)) => msgpack::law_uint(d, p2, v),
        Some(TransferLimit::Float(v)) => msgpack::law_double(d, p2, v, 0),
        None => {},
    }
}

/// Initial `/get` response: available transient IDs or an error.
#[derive(Debug, Clone, PartialEq, Eq)]
pub enum MessageListResponse {
    TransientIds(Vec<TransientId>),
    Error(PeerError),
}

/// A list of byte strings, or an error value.
pub ghost enum Listing {
    Values(Seq<Seq<u8>>),
    Failure(PeerError),
}

pub open spec fn listing_bytes(l: Listing) -> Seq<u8> {
    match l {
        Listing::Values(s) => bins_bytes(s),
        Listing::Failure(e) => msgpack::uint_bytes(e.spec_code() as nat),
    }
}

/// A response whose list items are read by `item`.
pub open spec fn listing_of(
    d: Seq<u8>,
    item: spec_fn(int) -> Result<(Seq<u8>, int), PropagationError>,
) -> Result<Listing, PropagationError> {
    match msgpack::kind_at(d, 0) {
        Err(e) => Err(lifted(e)),
        Ok(msgpack::Kind::Array) => match counted_at(d, item, 0) {
            Err(e) => Err(e),
            Ok((s, p)) => if p != d.len() {
                Err(PropagationError::TrailingData)
            } else {
                Ok(Listing::Values(s))
            },
        },
        Ok(_) => match peer_error_at(d, 0) {
            Err(e) => Err(e),
            Ok((f, p)) => if p != d.len() {
                Err(PropagationError::TrailingData)
            } else {
                Ok(Listing::Failure(f))
            },
        },
    }
}

impl View for MessageListResponse {
    type V = Listing;

    open spec fn view(&self) -> Listing {
        match self {
            MessageListResponse::TransientIds(ids) => Listing::Values(ids_view(ids@)),
            MessageListResponse::Error(e) => Listing::Failure(*e),
        }
    }
}

impl MessageListResponse {
    pub fn encode(&self) -> (r: Result<Vec<u8>, PropagationError>)
        ensures
            r is Ok,
            r->Ok_0@ == listing_bytes(self@),
    {
        let mut output: Vec<u8> = Vec::new();
        match self {
            MessageListResponse::TransientIds(ids) => encode_ids(&mut output, ids.as_slice()),
            MessageListResponse::Error(error) => msgpack::uint(&mut output, error.code() as u64),
        }
        assert(output@ =~= listing_bytes(self@));
        Ok(output)
    }

    pub fn decode(bytes: &[u8]) -> (r: Result<MessageListResponse, PropagationError>)
        ensures
            match listing_of(bytes@, id_at(bytes@)) {
                Ok(l) => r is Ok && r->Ok_0@ == l,
                Err(e) => r == Err::<MessageListResponse, PropagationError>(e),
            },
    {
        let mut position: usize = 0;
        let kind = lift(msgpack::peek_kind(bytes, position))?;
        if kind == msgpack::Kind::Array {
            let ids = decode_ids(bytes, &mut position)?;
            finish(bytes, position)?;
            Ok(MessageListResponse::TransientIds(ids))
        } else {
            let error = read_peer_error(bytes, &mut position)?;
            finish(bytes, position)?;
            Ok(MessageListResponse::Error(error))
        }
    }
}

/// Download `/get` response: unstamped encrypted LXMF messages or an error.
#[derive(Debug, Clone, PartialEq, Eq)]
pub enum MessageGetResponse {
    Messages(Vec<Vec<u8>>),
    Error(PeerError),
}

impl View for MessageGetResponse {
    type V = Listing;

    open spec fn view(&self) -> Listing {
        match self {
            MessageGetResponse::Messages(values) => Listing::Values(values_view(values@)),
            MessageGetResponse::Error(e) => Listing::Failure(*e),
        }
    }
}

impl MessageGetResponse {
    pub fn encode(&self) -> (r: Result<Vec<u8>, PropagationError>)
        ensures
            r is Ok,
            r->Ok_0@ == listing_bytes(self@),
    {
        let mut output: Vec<u8> = Vec::new();
        match self {
            MessageGetResponse::Messages(values) => encode_binary_list(&mut output, values),
            MessageGetResponse::Error(error) => msgpack::uint(&mut output, error.code() as u64),
        }
        assert(output@ =~= listing_bytes(self@));
        Ok(output)
    }

    pub fn decode(bytes: &[u8]) -> (r: Result<MessageGetResponse, PropagationError>)
        ensures
            match listing_of(bytes@, value_at(bytes@)) {
                Ok(l) => r is Ok && r->Ok_0@ == l,
                Err(e) => r == Err::<MessageGetResponse, PropagationError>(e),
            },
    {
        let mut position: usize = 0;
        let kind = lift(msgpack::peek_kind(bytes, position))?;
        if kind == msgpack::Kind::Array {
            let values = decode_binary_list(bytes, &mut position)?;
            finish(bytes, position)?;
            Ok(MessageGetResponse::Messages(values))
        } else {
            let error = read_peer_error(bytes, &mut position)?;
            finish(bytes, position)?;
            Ok(MessageGetResponse::Error(error))
        }
    }
}

/// A client decodes the identifier list or error that a node encoded.
pub proof fn law_list_response_round_trip(l: Listing)
    requires
        l matches Listing::Values(s) ==> ids_ok(s),
        listing_bytes(l).len() <= usize::MAX,
    ensures
        listing_of(listing_bytes(l), id_at(listing_bytes(l))) == Ok::<Listing, PropagationError>(l),
{
    let d = listing_bytes(l);
    msgpack::lemma_at_whole(d);
    match l {
        Listing::Values(s) => law_ids(d, 0, s),
        Listing::Failure(e) => msgpack::law_uint(d, 0, e.spec_code() as u64),
    }
}

/// A client decodes the messages or error that a node encoded.
pub proof fn law_get_response_round_trip(l: Listing)
    requires
        l matches Listing::Values(s) ==> s.len() <= u32::MAX && forall|i: int|
            0 <= i < s.len() ==> (#[trigger] s[i]).len() <= u32::MAX,
        listing_bytes(l).len() <= usize::MAX,
    ensures
        listing_of(listing_bytes(l), value_at(listing_bytes(l))) == Ok::<Listing, PropagationError>(
            l,
        ),
{
    let d = listing_bytes(l);
    msgpack::lemma_at_whole(d);
    match l {
        Listing::Values(s) => {
            assert forall|i: int, q: int|
                0 <= i < s.len() && #[trigger] msgpack::at(
                    d,
                    q,
                    msgpack::bin_bytes(s[i]),
                ) implies value_at(d)(q) == Ok::<(Seq<u8>, int), PropagationError>(
                (s[i], q + msgpack::bin_bytes(s[i]).len()),
            ) by {
                msgpack::law_bin(d, q, s[i], 0);
            }
            law_bins(d, value_at(d), 0, s);
        },
        Listing::Failure(e) => msgpack::law_uint(d, 0, e.spec_code() as u64),
    }
}

// ---------------------------------------------------------------------------
// Node announces
// ---------------------------------------------------------------------------

/// Bit pattern of two to the 64.
pub const TWO_TO_64: u64 = 0x43f0_0000_0000_0000;

/// A limit in kilobytes: an integer, or a float that is cut off at the point.
pub open spec fn announce_limit_at(d: Seq<u8>, p: int) -> Result<(u64, int), PropagationError> {
    match msgpack::kind_at(d, p) {
        Err(e) => Err(lifted(e)),
        Ok(msgpack::Kind::Float) => match msgpack::number_bits_at(d, p) {
            Err(e) => Err(lifted(e)),
            Ok((v, q)) => if !ieee::finite(v) || ieee::lt(v, 0) {
                Err(PropagationError::InvalidValue)
            } else if !ieee::lt(v, TWO_TO_64) {
                Err(PropagationError::Overflow)
            } else {
                Ok((ieee::to_u64(v), q))
            },
        },
        Ok(_) => up(msgpack::uint_at(d, p)),
    }
}

fn decode_announce_limit(bytes: &[u8], position: &mut usize) -> (r: Result<u64, PropagationError>)
    ensures
        match announce_limit_at(bytes@, *old(position) as int) {
            Ok((v, q)) => r == Ok::<u64, PropagationError>(v) && *final(position) == q,
            Err(e) => r == Err::<u64, PropagationError>(e),
        },
{
    let kind = lift(msgpack::peek_kind(bytes, *position))?;
    if kind != msgpack::Kind::Float {
        return lift(msgpack::read_uint(bytes, position));
    }
    let value: u64 = lift(msgpack::read_number_f64(bytes, position))?;
    if !ieee::is_finite(value) || ieee::less(value, 0) {
        return Err(PropagationError::InvalidValue);
    }
    if !ieee::less(value, TWO_TO_64) {
        return Err(PropagationError::Overflow);
    }
    Ok(ieee::truncate(value))
}

/// What a raw metadata value is refused with, if it is not one value.
pub open spec fn raw_value_fault(v: Seq<u8>) -> Option<PropagationError> {
    match msgpack::skip_at(v, 0, msgpack::MAX_SKIP_DEPTH as nat) {
        Err(e) => Some(lifted(e)),
        Ok(p) => if p == v.len() {
            None
        } else {
            Some(PropagationError::TrailingData)
        },
    }
}

fn validate_raw_value(bytes: &[u8]) -> (r: Result<(), PropagationError>)
    ensures
        match raw_value_fault(bytes@) {
            None => r is Ok,
            Some(e) => r == Err::<(), PropagationError>(e),
        },
{
    let mut position: usize = 0;
    lift(msgpack::skip(bytes, &mut position))?;
    finish(bytes, position)
}

/// Seven-field app-data payload announced by propagation nodes.
#[derive(Debug, Clone, PartialEq, Eq)]
pub struct PropagationNodeAnnounce {
    pub legacy_support: bool,
    pub timebase: u64,
    pub enabled: bool,
    pub transfer_limit_kb: u64,
    pub sync_limit_kb: u64,
    pub stamp_cost: u64,
    pub stamp_cost_flexibility: u64,
    pub peering_cost: u64,
    /// Map values are kept as raw MessagePack so custom metadata round-trips
    /// without a schema.
    pub metadata: Vec<MetadataEntry>,
}

pub open spec fn metadata_view(metadata: Seq<MetadataEntry>) -> Seq<(u64, Seq<u8>)> {
    metadata.map_values(|e: MetadataEntry| (e.0, e.1@))
}

/// What a propagation node announces.
pub ghost struct NodeAnnounce {
    pub legacy_support: bool,
    pub timebase: u64,
    pub enabled: bool,
    pub transfer_limit_kb: u64,
    pub sync_limit_kb: u64,
    pub stamp_cost: u64,
    pub stamp_cost_flexibility: u64,
    pub peering_cost: u64,
    pub metadata: Seq<(u64, Seq<u8>)>,
}

impl View for PropagationNodeAnnounce {
    type V = NodeAnnounce;

    open spec fn view(&self) -> NodeAnnounce {
        NodeAnnounce {
            legacy_support: self.legacy_support,
            timebase: self.timebase,
            enabled: self.enabled,
            transfer_limit_kb: self.transfer_limit_kb,
            sync_limit_kb: self.sync_limit_kb,
            stamp_cost: self.stamp_cost,
            stamp_cost_flexibility: self.stamp_cost_flexibility,
            peering_cost: self.peering_cost,
            metadata: metadata_view(self.metadata@),
        }
    }
}

pub open spec fn metadata_entry_bytes(e: (u64, Seq<u8>)) -> Seq<u8> {
    msgpack::uint_bytes(e.0 as nat) + e.1
}

pub open spec fn metadata_bytes(m: Seq<(u64, Seq<u8>)>) -> Seq<u8> {
    msgpack::list_bytes(|e: (u64, Seq<u8>)| metadata_entry_bytes(e), m)
}

/// The wire form `[legacy, timebase, enabled, transfer, sync, [cost,
/// flexibility, peering], {metadata}]`.
pub open spec fn announce_bytes(a: NodeAnnounce) -> Seq<u8> {
    msgpack::array_header(7) + msgpack::bool_bytes(a.legacy_support) + msgpack::uint_bytes(
        a.timebase as nat,
    ) + msgpack::bool_bytes(a.enabled) + msgpack::uint_bytes(a.transfer_limit_kb as nat)
        + msgpack::uint_bytes(a.sync_limit_kb as nat) + costs_bytes(
        a.stamp_cost,
        a.stamp_cost_flexibility,
        a.peering_cost,
    ) + metadata_map_bytes(a.metadata)
}

pub open spec fn costs_bytes(a: u64, b: u64, c: u64) -> Seq<u8> {
    msgpack::array_header(3) + msgpack::uint_bytes(a as nat) + msgpack::uint_bytes(b as nat)
        + msgpack::uint_bytes(c as nat)
}

pub open spec fn metadata_map_bytes(m: Seq<(u64, Seq<u8>)>) -> Seq<u8> {
    msgpack::map_header((m.len() as u32) as nat) + metadata_bytes(m)
}

/// The fault of the first metadata value that has one.
pub open spec fn metadata_fault(m: Seq<(u64, Seq<u8>)>) -> Option<PropagationError>
    decreases m.len(),
{
    if m.len() == 0 {
        None
    } else {
        match metadata_fault(m.drop_last()) {
            Some(e) => Some(e),
            None => raw_value_fault(m.last().1),
        }
    }
}

pub open spec fn metadata_entry_at(d: Seq<u8>) -> spec_fn(int) -> Result<
    ((u64, Seq<u8>), int),
    PropagationError,
> {
    |p: int|
        match msgpack::uint_at(d, p) {
            Err(e) => Err(lifted(e)),
            Ok((k, q)) => match msgpack::raw_at(d, q) {
                Err(e) => Err(lifted(e)),
                Ok((v, t)) => Ok(((k, v), t)),
            },
        }
}

/// The three costs, with elements behind them skipped.
pub open spec fn costs_at(d: Seq<u8>, p: int) -> Result<((u64, u64, u64), int), PropagationError> {
    match msgpack::array_len_at(d, p) {
        Err(e) => Err(lifted(e)),
        Ok((n, p0)) => if n < 3 {
            Err(PropagationError::InvalidLength)
        } else {
            match msgpack::uint_at(d, p0) {
                Err(e) => Err(lifted(e)),
                Ok((a, p1)) => match msgpack::uint_at(d, p1) {
                    Err(e) => Err(lifted(e)),
                    Ok((b, p2)) => match msgpack::uint_at(d, p2) {
                        Err(e) => Err(lifted(e)),
                        Ok((c, p3)) => match msgpack::skip_many_at(
                            d,
                            p3,
                            (n - 3) as nat,
                            msgpack::MAX_SKIP_DEPTH as nat,
                        ) {
                            Err(e) => Err(lifted(e)),
                            Ok(p4) => Ok(((a, b, c), p4)),
                        },
                    },
                },
            }
        },
    }
}

pub open spec fn metadata_at(d: Seq<u8>, p: int) -> Result<
    (Seq<(u64, Seq<u8>)>, int),
    PropagationError,
> {
    match msgpack::map_len_at(d, p) {
        Err(e) => Err(lifted(e)),
        Ok((n, q)) => if guarded(d, q, n) {
            msgpack::list_at(metadata_entry_at(d), q, n)
        } else {
            Err(PropagationError::InvalidLength)
        },
    }
}

/// The announce in a byte string. Fields behind the seventh are skipped.
pub open spec fn announce_of(d: Seq<u8>) -> Result<NodeAnnounce, PropagationError> {
    match msgpack::array_len_at(d, 0) {
        Err(e) => Err(lifted(e)),
        Ok((n, p0)) => if n < 7 {
            Err(PropagationError::InvalidLength)
        } else {
            match msgpack::bool_at(d, p0) {
                Err(e) => Err(lifted(e)),
                Ok((legacy_support, p1)) => match msgpack::uint_at(d, p1) {
                    Err(e) => Err(lifted(e)),
                    Ok((timebase, p2)) => match msgpack::bool_at(d, p2) {
                        Err(e) => Err(lifted(e)),
                        Ok((enabled, p3)) => match announce_limit_at(d, p3) {
                            Err(e) => Err(e),
                            Ok((transfer_limit_kb, p4)) => match announce_limit_at(d, p4) {
                                Err(e) => Err(e),
                                Ok((sync_limit_kb, p5)) => match costs_at(d, p5) {
                                    Err(e) => Err(e),
                                    Ok((costs, p6)) => match metadata_at(d, p6) {
                                        Err(e) => Err(e),
                                        Ok((metadata, p7)) => match msgpack::skip_many_at(
                                            d,
                                            p7,
                                            (n - 7) as nat,
                                            msgpack::MAX_SKIP_DEPTH as nat,
                                        ) {
                                            Err(e) => Err(lifted(e)),
                                            Ok(p8) => if p8 != d.len() {
                                                Err(PropagationError::TrailingData)
                                            } else {
                                                Ok(
                                                    NodeAnnounce {
                                                        legacy_support,
                                                        timebase,
                                                        enabled,
                                                        transfer_limit_kb,
                                                        sync_limit_kb,
                                                        stamp_cost: costs.0,
                                                        stamp_cost_flexibility: costs.1,
                                                        peering_cost: costs.2,
                                                        metadata,
                                                    },
                                                )
                                            },
                                        },
                                    },
                                },
                            },
                        },
                    },
                },
            }
        },
    }
}

fn decode_costs(bytes: &[u8], position: &mut usize) -> (r: Result<
    (u64, u64, u64),
    PropagationError,
>)
    ensures
        match costs_at(bytes@, *old(position) as int) {
            Ok((c, q)) => r == Ok::<(u64, u64, u64), PropagationError>(c) && *final(position) == q,
            Err(e) => r == Err::<(u64, u64, u64), PropagationError>(e),
        },
{
    let n: usize = lift(msgpack::array_len(bytes, position))?;
    if n < 3 {
        return Err(PropagationError::InvalidLength);
    }
    let a: u64 = lift(msgpack::read_uint(bytes, position))?;
    let b: u64 = lift(msgpack::read_uint(bytes, position))?;
    let c: u64 = lift(msgpack::read_uint(bytes, position))?;
    lift(msgpack::skip_values(bytes, position, (n - 3) as u64, msgpack::MAX_SKIP_DEPTH))?;
    Ok((a, b, c))
}

fn decode_metadata(bytes: &[u8], position: &mut usize) -> (r: Result<
    Vec<MetadataEntry>,
    PropagationError,
>)
    ensures
        match metadata_at(bytes@, *old(position) as int) {
            Ok((m, q)) => r is Ok && metadata_view(r->Ok_0@) == m && *final(position) == q,
            Err(e) => r == Err::<Vec<MetadataEntry>, PropagationError>(e),
        },
{
    let count: usize = lift(msgpack::map_len(bytes, position))?;
    reserve_guard(bytes, *position, count)?;
    let ghost start = *position as int;
    let mut metadata: Vec<MetadataEntry> = Vec::new();
    assert(metadata_view(metadata@) =~= Seq::empty());
    let mut i: usize = 0;
    while i < count
        invariant
            i <= count,
            msgpack::list_at(metadata_entry_at(bytes@), start, i as nat) == Ok::<
                (Seq<(u64, Seq<u8>)>, int),
                PropagationError,
            >((metadata_view(metadata@), *position as int)),
            metadata_at(bytes@, *old(position) as int) == msgpack::list_at(
                metadata_entry_at(bytes@),
                start,
                count as nat,
            ),
        decreases count - i,
    {
        proof {
            if msgpack::list_at(metadata_entry_at(bytes@), start, (i + 1) as nat) is Err {
                msgpack::lemma_list_fails(
                    metadata_entry_at(bytes@),
                    start,
                    (i + 1) as nat,
                    count as nat,
                );
            }
        }
        let ghost before = metadata_view(metadata@);
        let k: u64 = lift(msgpack::read_uint(bytes, position))?;
        let v = to_vec(lift(msgpack::raw(bytes, position))?);
        metadata.push((k, v));
        assert(metadata_view(metadata@) =~= before.push((k, v@)));
        i = i + 1;
    }
    Ok(metadata)
}

proof fn lemma_metadata_fault_prefix(m: Seq<(u64, Seq<u8>)>, i: int)
    requires
        0 <= i <= m.len(),
        metadata_fault(m.take(i)) is Some,
    ensures
        metadata_fault(m) == metadata_fault(m.take(i)),
    decreases m.len() - i,
{
    if i < m.len() {
        let t = m.take(i + 1);
        assert(t.drop_last() =~= m.take(i));
        lemma_metadata_fault_prefix(m, i + 1);
    } else {
        assert(m.take(i) =~= m);
    }
}

impl PropagationNodeAnnounce {
    /// The node's own announce app-data. A metadata value that is not exactly
    /// one MessagePack value is refused.
    pub fn encode(&self) -> (r: Result<Vec<u8>, PropagationError>)
        ensures
            match metadata_fault(self@.metadata) {
                None => r is Ok && r->Ok_0@ == announce_bytes(self@),
                Some(e) => r == Err::<Vec<u8>, PropagationError>(e),
            },
    {
        let mut output: Vec<u8> = Vec::new();
        msgpack::array(&mut output, 7);
        msgpack::boolean(&mut output, self.legacy_support);
        msgpack::uint(&mut output, self.timebase);
        msgpack::boolean(&mut output, self.enabled);
        msgpack::uint(&mut output, self.transfer_limit_kb);
        msgpack::uint(&mut output, self.sync_limit_kb);
        msgpack::array(&mut output, 3);
        msgpack::uint(&mut output, self.stamp_cost);
        msgpack::uint(&mut output, self.stamp_cost_flexibility);
        msgpack::uint(&mut output, self.peering_cost);
        msgpack::map(&mut output, self.metadata.len());
        let ghost head = output@;
        let ghost mv = metadata_view(self.metadata@);
        let mut i: usize = 0;
        while i < self.metadata.len()
            invariant
                i <= self.metadata@.len(),
                mv == metadata_view(self.metadata@),
                metadata_fault(mv.take(i as int)) is None,
                output@ == head + metadata_bytes(mv.take(i as int)),
            decreases self.metadata@.len() - i,
        {
            let ghost before = output@;
            let ghost t = mv.take(i + 1);
            proof {
                assert(t.drop_last() =~= mv.take(i as int));
                assert(t.last() == mv[i as int]);
                if metadata_fault(t) is Some {
                    lemma_metadata_fault_prefix(mv, i + 1);
                }
            }
            let raw = self.metadata[i].1.as_slice();
            validate_raw_value(raw)?;
            msgpack::uint(&mut output, self.metadata[i].0);
            msgpack::append_raw(&mut output, raw);
            proof {
                assert(output@ =~= before + metadata_entry_bytes(mv[i as int]));
                assert(output@ =~= head + metadata_bytes(t));
            }
            i = i + 1;
        }
        assert(mv.take(mv.len() as int) =~= mv);
        assert(output@ =~= announce_bytes(self@));
        Ok(output)
    }

    /// A second announce with the same contents.
    pub fn duplicate(&self) -> (r: PropagationNodeAnnounce)
        ensures
            r@ == self@,
    {
        let mut metadata: Vec<MetadataEntry> = Vec::new();
        let mut i: usize = 0;
        while i < self.metadata.len()
            invariant
                i <= self.metadata@.len(),
                metadata_view(metadata@) == metadata_view(self.metadata@).take(i as int),
            decreases self.metadata@.len() - i,
        {
            let value: Vec<u8> = crate::bytemap::to_vec(self.metadata[i].1.as_slice());
            let ghost had = metadata@;
            metadata.push((self.metadata[i].0, value));
            proof {
                let whole = metadata_view(self.metadata@);
                assert(metadata_view(metadata@) =~= metadata_view(had).push(whole[i as int]));
                assert(whole.take(i + 1) =~= whole.take(i as int).push(whole[i as int]));
            }
            i = i + 1;
        }
        assert(metadata_view(metadata@) =~= metadata_view(self.metadata@));
        PropagationNodeAnnounce {
            legacy_support: self.legacy_support,
            timebase: self.timebase,
            enabled: self.enabled,
            transfer_limit_kb: self.transfer_limit_kb,
            sync_limit_kb: self.sync_limit_kb,
            stamp_cost: self.stamp_cost,
            stamp_cost_flexibility: self.stamp_cost_flexibility,
            peering_cost: self.peering_cost,
            metadata,
        }
    }

    pub fn decode(bytes: &[u8]) -> (r: Result<PropagationNodeAnnounce, PropagationError>)
        ensures
            match announce_of(bytes@) {
                Ok(a) => r is Ok && r->Ok_0@ == a,
                Err(e) => r == Err::<PropagationNodeAnnounce, PropagationError>(e),
            },
    {
        let mut position: usize = 0;
        let n: usize = lift(msgpack::array_len(bytes, &mut position))?;
        if n < 7 {
            return Err(PropagationError::InvalidLength);
        }
        let legacy_support = lift(msgpack::read_bool(bytes, &mut position))?;
        let timebase: u64 = lift(msgpack::read_uint(bytes, &mut position))?;
        let enabled = lift(msgpack::read_bool(bytes, &mut position))?;
        let transfer_limit_kb: u64 = decode_announce_limit(bytes, &mut position)?;
        let sync_limit_kb: u64 = decode_announce_limit(bytes, &mut position)?;
        let (stamp_cost, stamp_cost_flexibility, peering_cost) = decode_costs(
            bytes,
            &mut position,
        )?;
        let metadata = decode_metadata(bytes, &mut position)?;
        lift(
            msgpack::skip_values(bytes, &mut position, (n - 7) as u64, msgpack::MAX_SKIP_DEPTH),
        )?;
        finish(bytes, position)?;
        Ok(
            PropagationNodeAnnounce {
                legacy_support,
                timebase,
                enabled,
                transfer_limit_kb,
                sync_limit_kb,
                stamp_cost,
                stamp_cost_flexibility,
                peering_cost,
                metadata,
            },
        )
    }
}

proof fn lemma_metadata_valid(m: Seq<(u64, Seq<u8>)>, i: int)
    requires
        metadata_fault(m) is None,
        0 <= i < m.len(),
    ensures
        msgpack::one_value(m[i].1),
    decreases m.len(),
{
    if i < m.len() - 1 {
        lemma_metadata_valid(m.drop_last(), i);
    }
}

proof fn lemma_metadata_len(m: Seq<(u64, Seq<u8>)>)
    ensures
        metadata_bytes(m).len() >= m.len(),
    decreases m.len(),
{
    if m.len() > 0 {
        lemma_metadata_len(m.drop_last());
        reveal(msgpack::uint_bytes);
    }
}

proof fn lemma_costs(d: Seq<u8>, p: int, a: u64, b: u64, c: u64)
    requires
        msgpack::at(d, p, costs_bytes(a, b, c)),
    ensures
        costs_at(d, p) == Ok::<((u64, u64, u64), int), PropagationError>(
            ((a, b, c), p + costs_bytes(a, b, c).len()),
        ),
{
    let h0 = msgpack::array_header(3);
    let h1 = msgpack::uint_bytes(a as nat);
    let h2 = msgpack::uint_bytes(b as nat);
    let h3 = msgpack::uint_bytes(c as nat);
    msgpack::lemma_at_concat(d, p, h0 + h1 + h2, h3);
    msgpack::lemma_at_concat(d, p, h0 + h1, h2);
    msgpack::lemma_at_concat(d, p, h0, h1);
    let p0 = p + h0.len();
    let p1 = p0 + h1.len();
    let p2 = p1 + h2.len();
    msgpack::law_array_header(d, p, 3);
    msgpack::law_uint(d, p0, a);
    msgpack::law_uint(d, p1, b);
    msgpack::law_uint(d, p2, c);
    msgpack::lemma_skip_none(d, p2 + h3.len(), msgpack::MAX_SKIP_DEPTH as nat);
}

proof fn lemma_metadata(d: Seq<u8>, p: int, m: Seq<(u64, Seq<u8>)>)
    requires
        msgpack::at(d, p, metadata_map_bytes(m)),
        metadata_fault(m) is None,
        m.len() <= u32::MAX,
    ensures
        metadata_at(d, p) == Ok::<(Seq<(u64, Seq<u8>)>, int), PropagationError>(
            (m, p + metadata_map_bytes(m).len()),
        ),
{
    let h = msgpack::map_header(m.len());
    msgpack::lemma_at_concat(d, p, h, metadata_bytes(m));
    msgpack::law_map_header(d, p, m.len());
    lemma_metadata_len(m);
    let one = |e: (u64, Seq<u8>)| metadata_entry_bytes(e);
    assert forall|i: int, q: int|
        0 <= i < m.len() && #[trigger] msgpack::at(d, q, one(m[i])) implies metadata_entry_at(d)(q)
        == Ok::<((u64, Seq<u8>), int), PropagationError>((m[i], q + one(m[i]).len())) by {
        let e = m[i];
        lemma_metadata_valid(m, i);
        msgpack::lemma_at_concat(d, q, msgpack::uint_bytes(e.0 as nat), e.1);
        msgpack::law_uint(d, q, e.0);
        msgpack::law_raw(d, q + msgpack::uint_bytes(e.0 as nat).len(), e.1);
    }
    msgpack::law_list(d, metadata_entry_at(d), one, p + h.len(), m);
}

/// A client decodes the announce that a node encoded.
#[verifier::rlimit(50)]
#[verifier::spinoff_prover]
pub proof fn law_announce_round_trip(a: NodeAnnounce)
    requires
        metadata_fault(a.metadata) is None,
        a.metadata.len() <= u32::MAX,
        announce_bytes(a).len() <= usize::MAX,
    ensures
        announce_of(announce_bytes(a)) == Ok::<NodeAnnounce, PropagationError>(a),
{
    let d = announce_bytes(a);
    let h0 = msgpack::array_header(7);
    let h1 = msgpack::bool_bytes(a.legacy_support);
    let h2 = msgpack::uint_bytes(a.timebase as nat);
    let h3 = msgpack::bool_bytes(a.enabled);
    let h4 = msgpack::uint_bytes(a.transfer_limit_kb as nat);
    let h5 = msgpack::uint_bytes(a.sync_limit_kb as nat);
    let h6 = costs_bytes(a.stamp_cost, a.stamp_cost_flexibility, a.peering_cost);
    let h7 = metadata_map_bytes(a.metadata);
    msgpack::lemma_at_whole(d);
    msgpack::lemma_at_concat(d, 0, h0 + h1 + h2 + h3 + h4 + h5 + h6, h7);
    msgpack::lemma_at_concat(d, 0, h0 + h1 + h2 + h3 + h4 + h5, h6);
    msgpack::lemma_at_concat(d, 0, h0 + h1 + h2 + h3 + h4, h5);
    msgpack::lemma_at_concat(d, 0, h0 + h1 + h2 + h3, h4);
    msgpack::lemma_at_concat(d, 0, h0 + h1 + h2, h3);
    msgpack::lemma_at_concat(d, 0, h0 + h1, h2);
    msgpack::lemma_at_concat(d, 0, h0, h1);
    let p0 = h0.len() as int;
    let p1 = p0 + h1.len();
    let p2 = p1 + h2.len();
    let p3 = p2 + h3.len();
    let p4 = p3 + h4.len();
    let p5 = p4 + h5.len();
    let p6 = p5 + h6.len();
    msgpack::law_array_header(d, 0, 7);
    msgpack::law_bool(d, p0, a.legacy_support, 0);
    msgpack::law_uint(d, p1, a.timebase);
    msgpack::law_bool(d, p2, a.enabled, 0);
    msgpack::law_uint(d, p3, a.transfer_limit_kb);
    msgpack::law_uint(d, p4, a.sync_limit_kb);
    lemma_costs(d, p5, a.stamp_cost, a.stamp_cost_flexibility, a.peering_cost);
    lemma_metadata(d, p6, a.metadata);
    msgpack::lemma_skip_none(d, p6 + h7.len(), msgpack::MAX_SKIP_DEPTH as nat);
}

/// What decrypting gives.
pub open spec fn unsealed(
    parts: (Seq<u8>, Seq<u8>),
    destination: Seq<u8>,
    plaintext: Option<&[u8]>,
    r: Result<Vec<u8>, PropagationError>,
) -> bool {
    if parts.0 != destination {
        r == Err::<Vec<u8>, PropagationError>(PropagationError::WrongDestination)
    } else {
        match plaintext {
            None => r == Err::<Vec<u8>, PropagationError>(PropagationError::Decryption),
            Some(t) => r is Ok && r->Ok_0@ == parts.0 + t@,
        }
    }
}

} // verus!
