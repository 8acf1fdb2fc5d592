//! LXMF messages: the signed payload, its packed form and its identifier.
use vstd::prelude::*;
use vstd::slice::slice_subrange;

use crate::bytemap::{to_array, to_vec};
use crate::hash::full_hash;
use crate::msgpack;

verus! {

/// An LXMF extension field. The value is one complete MessagePack value, kept
/// as its bytes so unknown extensions round-trip. Keys are signed.
pub type Field = (i64, Vec<u8>);

#[derive(Debug, Clone, Copy, PartialEq, Eq, Structural)]
pub enum DeliveryMethod {
    Opportunistic,
    Direct,
    Propagated,
    Paper,
}

impl DeliveryMethod {
    pub open spec fn spec_code(self) -> u64 {
        match self {
            DeliveryMethod::Opportunistic => 1,
            DeliveryMethod::Direct => 2,
            DeliveryMethod::Propagated => 3,
            DeliveryMethod::Paper => 5,
        }
    }

    /// The number that stands for the method in a snapshot.
    pub fn code(self) -> (r: u64)
        ensures
            r == self.spec_code(),
    {
        match self {
            DeliveryMethod::Opportunistic => 1,
            DeliveryMethod::Direct => 2,
            DeliveryMethod::Propagated => 3,
            DeliveryMethod::Paper => 5,
        }
    }
}

#[derive(Debug, Clone, Copy, PartialEq, Eq, Structural)]
pub enum Verification {
    Unverified,
    Valid,
    Invalid,
}

/// What became of checking a signature against the sender's identity.
#[derive(Debug, Clone, Copy, PartialEq, Eq, Structural)]
pub enum SignatureCheck {
    /// The sender's identity is not known.
    NoIdentity,
    /// The identity could not check signatures.
    Failed,
    Accepted,
    Refused,
}

#[derive(Debug, Clone, Copy, PartialEq, Eq, Structural)]
pub enum MessageError {
    TooShort,
    InvalidFormat,
    InvalidField,
    Identity,
    WrongDestination,
}

impl From<msgpack::Error> for MessageError {
    fn from(e: msgpack::Error) -> (r: Self) {
        MessageError::InvalidFormat
    }
}

impl vstd::std_specs::convert::FromSpecImpl<msgpack::Error> for MessageError {
    open spec fn obeys_from_spec() -> bool {
        true
    }

    open spec fn from_spec(e: msgpack::Error) -> Self {
        MessageError::InvalidFormat
    }
}

fn lift<T>(r: Result<T, msgpack::Error>) -> (q: Result<T, MessageError>)
    ensures
        match r {
            Ok(v) => q == Ok::<T, MessageError>(v),
            Err(_) => q == Err::<T, MessageError>(MessageError::InvalidFormat),
        },
{
    match r {
        Ok(v) => Ok(v),
        Err(e) => Err(MessageError::from(e)),
    }
}

/// The fields as pairs of a key and value bytes.
pub open spec fn fields_view(fields: Seq<Field>) -> Seq<(i64, Seq<u8>)> {
    fields.map_values(|f: Field| (f.0, f.1@))
}

/// What a payload carries. The timestamp is a binary64 bit pattern.
pub ghost struct Payload {
    pub timestamp: u64,
    pub title: Seq<u8>,
    pub content: Seq<u8>,
    pub fields: Seq<(i64, Seq<u8>)>,
    pub stamp: Option<Seq<u8>>,
}

/// One field: its key, then its value as it stands.
pub open spec fn field_bytes(f: (i64, Seq<u8>)) -> Seq<u8> {
    msgpack::int_bytes(f.0 as int) + f.1
}

pub open spec fn fields_bytes(fields: Seq<(i64, Seq<u8>)>) -> Seq<u8> {
    msgpack::list_bytes(|f: (i64, Seq<u8>)| field_bytes(f), fields)
}

/// The wire form of a payload.
pub open spec fn payload_bytes(m: Payload) -> Seq<u8> {
    msgpack::array_header(
        if m.stamp is Some {
            5
        } else {
            4
        },
    ) + msgpack::double_bytes(m.timestamp) + msgpack::bin_bytes(m.title) + msgpack::bin_bytes(
        m.content,
    ) + msgpack::map_header((m.fields.len() as u32) as nat) + fields_bytes(m.fields) + (
    match m.stamp {
        Some(s) => msgpack::bin_bytes(s),
        None => Seq::empty(),
    })
}

pub open spec fn field_at(d: Seq<u8>) -> spec_fn(int) -> Result<
    ((i64, Seq<u8>), int),
    msgpack::Error,
> {
    |p: int|
        match msgpack::sint_at(d, p) {
            Err(e) => Err(e),
            Ok((k, q)) => match msgpack::raw_at(d, q) {
                Err(e) => Err(e),
                Ok((v, t)) => Ok(((k, v), t)),
            },
        }
}

/// The stamp behind the fields, where the payload has a fifth element.
pub open spec fn stamp_at(d: Seq<u8>, p: int, n: nat) -> Option<(Option<Seq<u8>>, int)> {
    if n == 5 {
        match msgpack::bin_at(d, p) {
            Ok((s, q)) => if s.len() == 16 || s.len() == 32 {
                Some((Some(s), q))
            } else {
                None
            },
            Err(_) => None,
        }
    } else {
        Some((None, p))
    }
}

/// The payload that a byte string is a wire form of, or nothing.
pub open spec fn payload_of(d: Seq<u8>) -> Option<Payload> {
    match msgpack::array_len_at(d, 0) {
        Err(_) => None,
        Ok((n, p0)) => if n != 4 && n != 5 {
            None
        } else {
            match msgpack::double_at(d, p0) {
                Err(_) => None,
                Ok((timestamp, p1)) => match msgpack::bin_at(d, p1) {
                    Err(_) => None,
                    Ok((title, p2)) => match msgpack::bin_at(d, p2) {
                        Err(_) => None,
                        Ok((content, p3)) => match msgpack::map_len_at(d, p3) {
                            Err(_) => None,
                            Ok((count, p4)) => match msgpack::list_at(field_at(d), p4, count) {
                                Err(_) => None,
                                Ok((fields, p5)) => match stamp_at(d, p5, n) {
                                    None => None,
                                    Some((stamp, p6)) => if p6 == d.len() {
                                        Some(Payload { timestamp, title, content, fields, stamp })
                                    } else {
                                        None
                                    },
                                },
                            },
                        },
                    },
                },
            }
        },
    }
}

/// Every field value is one complete MessagePack value.
pub open spec fn fields_valid(fields: Seq<(i64, Seq<u8>)>) -> bool {
    forall|i: int| 0 <= i < fields.len() ==> msgpack::one_value((#[trigger] fields[i]).1)
}

/// What a message identifier is the digest of: both hashes and the payload
/// without its stamp.
pub open spec fn hashed_bytes(destination: Seq<u8>, source: Seq<u8>, m: Payload) -> Seq<u8> {
    destination + source + payload_bytes(Payload { stamp: None, ..m })
}

pub open spec fn id_of(destination: Seq<u8>, source: Seq<u8>, m: Payload) -> Seq<u8> {
    crate::hash::sha256(hashed_bytes(destination, source, m))
}

/// A message. The timestamp is a binary64 bit pattern.
#[derive(Debug, Clone, PartialEq, Eq)]
pub struct Message {
    pub destination_hash: [u8; 16],
    pub source_hash: [u8; 16],
    pub signature: [u8; 64],
    pub timestamp: u64,
    pub title: Vec<u8>,
    pub content: Vec<u8>,
    pub fields: Vec<Field>,
    /// Delivery stamp. PoW stamps are 32 bytes; ticket-derived stamps are 16.
    pub stamp: Option<Vec<u8>>,
    pub message_id: [u8; 32],
    pub verification: Verification,
    pub method: DeliveryMethod,
}

/// A message with its bytes as sequences.
pub ghost struct Mail {
    pub destination: [u8; 16],
    pub source: [u8; 16],
    pub signature: [u8; 64],
    pub payload: Payload,
    pub id: [u8; 32],
    pub verification: Verification,
    pub method: DeliveryMethod,
}

impl View for Message {
    type V = Mail;

    open spec fn view(&self) -> Mail {
        Mail {
            destination: self.destination_hash,
            source: self.source_hash,
            signature: self.signature,
            payload: self.payload(),
            id: self.message_id,
            verification: self.verification,
            method: self.method,
        }
    }
}

/// The packed form of a message.
pub open spec fn mail_bytes(m: Mail) -> Seq<u8> {
    m.destination@ + m.source@ + m.signature@ + payload_bytes(m.payload)
}

/// The array with these bytes.
pub open spec fn array<const N: usize>(s: Seq<u8>) -> [u8; N] {
    choose|a: [u8; N]| a@ == s
}

pub open spec fn stamp_view(stamp: Option<Vec<u8>>) -> Option<Seq<u8>> {
    match stamp {
        Some(s) => Some(s@),
        None => None,
    }
}

impl Message {
    pub open spec fn payload(&self) -> Payload {
        Payload {
            timestamp: self.timestamp,
            title: self.title@,
            content: self.content@,
            fields: fields_view(self.fields@),
            stamp: stamp_view(self.stamp),
        }
    }

    /// The packed form.
    pub open spec fn packed(&self) -> Seq<u8> {
        self.destination_hash@ + self.source_hash@ + self.signature@ + payload_bytes(self.payload())
    }

    /// What the signature covers.
    pub open spec fn signed(&self) -> Seq<u8> {
        hashed_bytes(self.destination_hash@, self.source_hash@, self.payload()) + self.message_id@
    }

    /// Validates the fields and returns the bytes to sign, which end with the
    /// message identifier, and the identifier.
    pub fn signing_request(
        destination_hash: &[u8; 16],
        source_hash: &[u8; 16],
        timestamp: u64,
        title: &[u8],
        content: &[u8],
        fields: &Vec<Field>,
    ) -> (r: Result<(Vec<u8>, [u8; 32]), MessageError>)
        ensures
            signing(
                destination_hash@,
                source_hash@,
                timestamp,
                title@,
                content@,
                fields_view(fields@),
                r,
            ),
    {
        if !fields_complete(fields) {
            return Err(MessageError::InvalidField);
        }
        let payload = encode_payload(timestamp, title, content, fields, None);
        let mut hashed: Vec<u8> = Vec::new();
        hashed.extend_from_slice(destination_hash);
        hashed.extend_from_slice(source_hash);
        hashed.extend_from_slice(&payload);
        let ghost m = Payload {
            timestamp,
            title: title@,
            content: content@,
            fields: fields_view(fields@),
            stamp: None,
        };
        assert(hashed@ =~= hashed_bytes(destination_hash@, source_hash@, m));
        let message_id = full_hash(&hashed);
        hashed.extend_from_slice(&message_id);
        assert(hashed@ =~= hashed_bytes(destination_hash@, source_hash@, m) + message_id@);
        Ok((hashed, message_id))
    }

    /// Constructs a complete message from its protocol fields and what signing
    /// the bytes of [`signing_request`](Self::signing_request) gave.
    pub fn create(
        destination_hash: [u8; 16],
        source_hash: [u8; 16],
        signature: Option<[u8; 64]>,
        timestamp: u64,
        title: Vec<u8>,
        content: Vec<u8>,
        fields: Vec<Field>,
        method: DeliveryMethod,
    ) -> (r: Result<Message, MessageError>)
        ensures
            created(
                destination_hash,
                source_hash,
                signature,
                timestamp,
                title,
                content,
                fields,
                method,
                r,
            ),
    {
        let (_, message_id) = Message::signing_request(
            &destination_hash,
            &source_hash,
            timestamp,
            &title,
            &content,
            &fields,
        )?;
        match signature {
            None => Err(MessageError::Identity),
            Some(signature) => Ok(
                Message {
                    destination_hash,
                    source_hash,
                    signature,
                    timestamp,
                    title,
                    content,
                    fields,
                    stamp: None,
                    message_id,
                    verification: Verification::Valid,
                    method,
                },
            ),
        }
    }

    /// Attaches a delivery stamp. The identifier does not cover it.
    pub fn set_stamp(&mut self, stamp: Vec<u8>) -> (r: Result<(), MessageError>)
        ensures
            stamp_set(*old(self), *final(self), stamp, r),
    {
        if stamp.len() != 16 && stamp.len() != 32 {
            return Err(MessageError::InvalidFormat);
        }
        self.stamp = Some(stamp);
        Ok(())
    }

    pub fn pack(&self) -> (r: Vec<u8>)
        ensures
            r@ == self.packed(),
    {
        let payload = match &self.stamp {
            Some(s) => encode_payload(
                self.timestamp,
                &self.title,
                &self.content,
                &self.fields,
                Some(s.as_slice()),
            ),
            None => encode_payload(self.timestamp, &self.title, &self.content, &self.fields, None),
        };
        let mut o: Vec<u8> = Vec::new();
        o.extend_from_slice(&self.destination_hash);
        o.extend_from_slice(&self.source_hash);
        o.extend_from_slice(&self.signature);
        o.extend_from_slice(&payload);
        assert(o@ =~= self.packed());
        o
    }

    /// The bytes sent for an opportunistic or direct delivery. The other
    /// methods need destination encryption and framing of their own.
    pub fn on_air(&self) -> (r: Result<Vec<u8>, MessageError>)
        ensures
            match self.method {
                DeliveryMethod::Opportunistic => r is Ok && r->Ok_0@ == self.packed().skip(16),
                DeliveryMethod::Direct => r is Ok && r->Ok_0@ == self.packed(),
                _ => r == Err::<Vec<u8>, MessageError>(MessageError::InvalidFormat),
            },
    {
        let p = self.pack();
        match self.method {
            DeliveryMethod::Opportunistic => {
                let s = slice_subrange(p.as_slice(), 16, p.len());
                let v = to_vec(s);
                assert(v@ =~= self.packed().skip(16));
                Ok(v)
            },
            DeliveryMethod::Direct => Ok(p),
            DeliveryMethod::Propagated | DeliveryMethod::Paper => Err(MessageError::InvalidFormat),
        }
    }

    /// The bytes that the signature is checked against.
    pub fn signed_bytes(&self) -> (r: Vec<u8>)
        ensures
            r@ == self.signed(),
    {
        let payload = encode_payload(
            self.timestamp,
            &self.title,
            &self.content,
            &self.fields,
            None,
        );
        let mut o: Vec<u8> = Vec::new();
        o.extend_from_slice(&self.destination_hash);
        o.extend_from_slice(&self.source_hash);
        o.extend_from_slice(&payload);
        o.extend_from_slice(&self.message_id);
        assert(o@ =~= self.signed());
        o
    }

    /// The message in `data`, with a signature that is still to be checked. An
    /// opportunistic packet leaves out the destination hash, which is inferred
    /// from its header.
    pub fn unpack_unverified(
        data: &[u8],
        inferred_destination: Option<[u8; 16]>,
        method: DeliveryMethod,
    ) -> (r: Result<Message, MessageError>)
        ensures
            unpacked(data@, inferred_destination, method, r),
            r matches Ok(m) ==> m.verification == Verification::Unverified,
    {
        let mut d: Vec<u8> = Vec::new();
        if method == DeliveryMethod::Opportunistic {
            match inferred_destination {
                None => {
                    return Err(MessageError::WrongDestination);
                },
                Some(dst) => {
                    d.extend_from_slice(&dst);
                },
            }
        }
        d.extend_from_slice(data);
        let ghost full = full_bytes(data@, inferred_destination, method);
        assert(d@ =~= full);
        if d.len() < 97 {
            return Err(MessageError::TooShort);
        }
        let destination = to_array::<16>(slice_subrange(d.as_slice(), 0, 16));
        let source = to_array::<16>(slice_subrange(d.as_slice(), 16, 32));
        let signature = to_array::<64>(slice_subrange(d.as_slice(), 32, 96));
        let body = slice_subrange(d.as_slice(), 96, d.len());
        match (destination, source, signature) {
            (Some(destination_hash), Some(source_hash), Some(signature)) => {
                let (timestamp, title, content, fields, stamp) = decode_payload(body)?;
                let clean = encode_payload(timestamp, &title, &content, &fields, None);
                let mut hashed: Vec<u8> = Vec::new();
                hashed.extend_from_slice(&destination_hash);
                hashed.extend_from_slice(&source_hash);
                hashed.extend_from_slice(&clean);
                let ghost m = Payload {
                    timestamp,
                    title: title@,
                    content: content@,
                    fields: fields_view(fields@),
                    stamp: stamp_view(stamp),
                };
                assert(hashed@ =~= hashed_bytes(destination_hash@, source_hash@, m));
                let message_id = full_hash(&hashed);
                Ok(
                    Message {
                        destination_hash,
                        source_hash,
                        signature,
                        timestamp,
                        title,
                        content,
                        fields,
                        stamp,
                        message_id,
                        verification: Verification::Unverified,
                        method,
                    },
                )
            },
            _ => Err(MessageError::TooShort),
        }
    }

    /// The message in `data`, with the outcome of checking its signature over
    /// [`signed_bytes`](Self::signed_bytes).
    pub fn unpack(
        data: &[u8],
        inferred_destination: Option<[u8; 16]>,
        check: SignatureCheck,
        method: DeliveryMethod,
    ) -> (r: Result<Message, MessageError>)
        ensures
            checked(data@, inferred_destination, check, method, r),
            mail_of(data@, inferred_destination, check, method) == match r {
                Ok(m) => Ok::<Mail, MessageError>(m@),
                Err(e) => Err(e),
            },
    {
        let r = Self::unpack_checked(data, inferred_destination, check, method);
        proof {
            lemma_mail_of(data@, inferred_destination, check, method, r);
        }
        r
    }

    fn unpack_checked(
        data: &[u8],
        inferred_destination: Option<[u8; 16]>,
        check: SignatureCheck,
        method: DeliveryMethod,
    ) -> (r: Result<Message, MessageError>)
        ensures
            checked(data@, inferred_destination, check, method, r),
    {
        let m = Message::unpack_unverified(data, inferred_destination, method)?;
        match check {
            SignatureCheck::NoIdentity => Ok(m),
            SignatureCheck::Failed => Err(MessageError::Identity),
            SignatureCheck::Accepted => Ok(Message { verification: Verification::Valid, ..m }),
            SignatureCheck::Refused => Ok(Message { verification: Verification::Invalid, ..m }),
        }
    }
}

/// The packed form that received bytes stand for.
pub open spec fn full_bytes(
    data: Seq<u8>,
    inferred: Option<[u8; 16]>,
    method: DeliveryMethod,
) -> Seq<u8> {
    if method == DeliveryMethod::Opportunistic && inferred is Some {
        inferred->Some_0@ + data
    } else {
        data
    }
}

/// `r` is what unpacking gives, whatever it says of the signature.
pub open spec fn unpacked(
    data: Seq<u8>,
    inferred: Option<[u8; 16]>,
    method: DeliveryMethod,
    r: Result<Message, MessageError>,
) -> bool {
    let d = full_bytes(data, inferred, method);
    if method == DeliveryMethod::Opportunistic && inferred is None {
        r == Err::<Message, MessageError>(MessageError::WrongDestination)
    } else if d.len() < 97 {
        r == Err::<Message, MessageError>(MessageError::TooShort)
    } else {
        match payload_of(d.subrange(96, d.len() as int)) {
            None => r == Err::<Message, MessageError>(MessageError::InvalidFormat),
            Some(p) => {
                &&& r matches Ok(m)
                &&& m.destination_hash@ == d.subrange(0, 16)
                &&& m.source_hash@ == d.subrange(16, 32)
                &&& m.signature@ == d.subrange(32, 96)
                &&& m.payload() == p
                &&& m.message_id@ == id_of(m.destination_hash@, m.source_hash@, p)
                &&& m.method == method
            },
        }
    }
}

/// `r` is what unpacking gives with the outcome of the signature check.
pub open spec fn checked(
    data: Seq<u8>,
    inferred: Option<[u8; 16]>,
    check: SignatureCheck,
    method: DeliveryMethod,
    r: Result<Message, MessageError>,
) -> bool {
    let d = full_bytes(data, inferred, method);
    let readable = !(method == DeliveryMethod::Opportunistic && inferred is None) && d.len() >= 97
        && payload_of(d.subrange(96, d.len() as int)) is Some;
    if readable && check == SignatureCheck::Failed {
        r == Err::<Message, MessageError>(MessageError::Identity)
    } else {
        &&& unpacked(data, inferred, method, r)
        &&& r matches Ok(m) ==> m.verification == (match check {
            SignatureCheck::Accepted => Verification::Valid,
            SignatureCheck::Refused => Verification::Invalid,
            _ => Verification::Unverified,
        })
    }
}

/// What unpacking gives, with the outcome of the signature check.
pub open spec fn mail_of(
    data: Seq<u8>,
    inferred: Option<[u8; 16]>,
    check: SignatureCheck,
    method: DeliveryMethod,
) -> Result<Mail, MessageError> {
    let d = full_bytes(data, inferred, method);
    if method == DeliveryMethod::Opportunistic && inferred is None {
        Err(MessageError::WrongDestination)
    } else if d.len() < 97 {
        Err(MessageError::TooShort)
    } else {
        match payload_of(d.subrange(96, d.len() as int)) {
            None => Err(MessageError::InvalidFormat),
            Some(payload) => if check == SignatureCheck::Failed {
                Err(MessageError::Identity)
            } else {
                Ok(
                    Mail {
                        destination: array(d.subrange(0, 16)),
                        source: array(d.subrange(16, 32)),
                        signature: array(d.subrange(32, 96)),
                        payload,
                        id: array(id_of(d.subrange(0, 16), d.subrange(16, 32), payload)),
                        verification: match check {
                            SignatureCheck::Accepted => Verification::Valid,
                            SignatureCheck::Refused => Verification::Invalid,
                            _ => Verification::Unverified,
                        },
                        method,
                    },
                )
            },
        }
    }
}

pub proof fn lemma_array<const N: usize>(a: [u8; N])
    ensures
        array::<N>(a@) == a,
{
    crate::bytemap::lemma_array_injective(array::<N>(a@), a);
}

/// A result that unpacking may give is the one it gives.
pub proof fn lemma_mail_of(
    data: Seq<u8>,
    inferred: Option<[u8; 16]>,
    check: SignatureCheck,
    method: DeliveryMethod,
    r: Result<Message, MessageError>,
)
    requires
        checked(data, inferred, check, method, r),
    ensures
        mail_of(data, inferred, check, method) == match r {
            Ok(m) => Ok::<Mail, MessageError>(m@),
            Err(e) => Err(e),
        },
{
    if let Ok(m) = r {
        lemma_array(m.destination_hash);
        lemma_array(m.source_hash);
        lemma_array(m.signature);
        lemma_array(m.message_id);
    }
}

fn fields_complete(fields: &Vec<Field>) -> (r: bool)
    ensures
        r == fields_valid(fields_view(fields@)),
{
    let mut i: usize = 0;
    while i < fields.len()
        invariant
            i <= fields@.len(),
            forall|j: int|
                0 <= j < i ==> msgpack::one_value((#[trigger] fields_view(fields@)[j]).1),
        decreases fields@.len() - i,
    {
        let v = &fields[i].1;
        let mut p: usize = 0;
        let skipped = msgpack::skip(v, &mut p);
        assert(fields_view(fields@)[i as int].1 == v@);
        if skipped.is_err() || p != v.len() {
            return false;
        }
        i = i + 1;
    }
    true
}

fn encode_payload(
    timestamp: u64,
    title: &[u8],
    content: &[u8],
    fields: &Vec<Field>,
    stamp: Option<&[u8]>,
) -> (o: Vec<u8>)
    ensures
        o@ == payload_bytes(
            (Payload {
                timestamp,
                title: title@,
                content: content@,
                fields: fields_view(fields@),
                stamp: match stamp {
                    Some(s) => Some(s@),
                    None => None,
                },
            }),
        ),
{
    let mut o: Vec<u8> = Vec::new();
    msgpack::array(
        &mut o,
        if stamp.is_some() {
            5
        } else {
            4
        },
    );
    msgpack::double(&mut o, timestamp);
    msgpack::bin(&mut o, title);
    msgpack::bin(&mut o, content);
    msgpack::map(&mut o, fields.len());
    let ghost head = o@;
    let ghost fv = fields_view(fields@);
    let mut i: usize = 0;
    while i < fields.len()
        invariant
            i <= fields@.len(),
            fv == fields_view(fields@),
            o@ == head + fields_bytes(fv.take(i as int)),
        decreases fields@.len() - i,
    {
        let ghost before = o@;
        msgpack::sint(&mut o, fields[i].0);
        o.extend_from_slice(&fields[i].1);
        proof {
            let t = fv.take(i + 1);
            assert(t.drop_last() =~= fv.take(i as int));
            assert(t.last() == fv[i as int]);
            assert(o@ =~= before + field_bytes(fv[i as int]));
            assert(fields_bytes(t) =~= fields_bytes(fv.take(i as int)) + field_bytes(
                fv[i as int],
            ));
        }
        i = i + 1;
    }
    assert(fv.take(fv.len() as int) =~= fv);
    if let Some(s) = stamp {
        msgpack::bin(&mut o, s);
    }
    assert(o@ =~= payload_bytes(
        Payload {
            timestamp,
            title: title@,
            content: content@,
            fields: fv,
            stamp: match stamp {
                Some(s) => Some(s@),
                None => None,
            },
        },
    ));
    o
}

fn decode_payload(d: &[u8]) -> (r: Result<
    (u64, Vec<u8>, Vec<u8>, Vec<Field>, Option<Vec<u8>>),
    MessageError,
>)
    ensures
        match payload_of(d@) {
            Some(m) => r is Ok && m == (Payload {
                timestamp: r->Ok_0.0,
                title: r->Ok_0.1@,
                content: r->Ok_0.2@,
                fields: fields_view(r->Ok_0.3@),
                stamp: stamp_view(r->Ok_0.4),
            }),
            None => r is Err && r->Err_0 == MessageError::InvalidFormat,
        },
{
    let mut p: usize = 0;
    let n: usize = lift(msgpack::array_len(d, &mut p))?;
    if n != 4 && n != 5 {
        return Err(MessageError::InvalidFormat);
    }
    let timestamp: u64 = lift(msgpack::read_f64(d, &mut p))?;
    let title = to_vec(lift(msgpack::read_bin(d, &mut p))?);
    let content = to_vec(lift(msgpack::read_bin(d, &mut p))?);
    let count: usize = lift(msgpack::map_len(d, &mut p))?;
    let mut fields: Vec<Field> = Vec::new();
    let ghost p4 = p as int;
    assert(fields_view(fields@) =~= Seq::empty());
    let mut i: usize = 0;
    while i < count
        invariant
            i <= count,
            msgpack::list_at(field_at(d@), p4, i as nat) == Ok::<
                (Seq<(i64, Seq<u8>)>, int),
                msgpack::Error,
            >((fields_view(fields@), p as int)),
            msgpack::list_at(field_at(d@), p4, count as nat) is Err ==> payload_of(d@) is None,
        decreases count - i,
    {
        proof {
            if msgpack::list_at(field_at(d@), p4, (i + 1) as nat) is Err {
                msgpack::lemma_list_fails(field_at(d@), p4, (i + 1) as nat, count as nat);
            }
        }
        let ghost before = fields_view(fields@);
        let k: i64 = lift(msgpack::read_int(d, &mut p))?;
        let v = to_vec(lift(msgpack::raw(d, &mut p))?);
        fields.push((k, v));
        assert(fields_view(fields@) =~= before.push((k, v@)));
        i = i + 1;
    }
    let stamp: Option<Vec<u8>> = if n == 5 {
        let s = lift(msgpack::read_bin(d, &mut p))?;
        if s.len() != 16 && s.len() != 32 {
            return Err(MessageError::InvalidFormat);
        }
        Some(to_vec(s))
    } else {
        None
    };
    if p != d.len() {
        return Err(MessageError::InvalidFormat);
    }
    Ok((timestamp, title, content, fields, stamp))
}

/// A payload that has a wire form: lengths that fit their headers, complete
/// field values, and a stamp of one of the two sizes.
pub open spec fn payload_valid(m: Payload) -> bool {
    &&& m.title.len() <= u32::MAX
    &&& m.content.len() <= u32::MAX
    &&& m.fields.len() <= u32::MAX
    &&& fields_valid(m.fields)
    &&& m.stamp matches Some(s) ==> s.len() == 16 || s.len() == 32
}

/// Decoding a payload gives back what was encoded.
pub proof fn law_payload_round_trip(m: Payload)
    requires
        payload_valid(m),
        payload_bytes(m).len() <= usize::MAX,
    ensures
        payload_of(payload_bytes(m)) == Some(m),
{
    let d = payload_bytes(m);
    let n: nat = if m.stamp is Some {
        5
    } else {
        4
    };
    let h0 = msgpack::array_header(n);
    let h1 = msgpack::double_bytes(m.timestamp);
    let h2 = msgpack::bin_bytes(m.title);
    let h3 = msgpack::bin_bytes(m.content);
    let h4 = msgpack::map_header(m.fields.len());
    let h5 = fields_bytes(m.fields);
    let h6 = match m.stamp {
        Some(s) => msgpack::bin_bytes(s),
        None => Seq::empty(),
    };
    msgpack::lemma_at_whole(d);
    msgpack::lemma_at_concat(d, 0, h0 + h1 + h2 + h3 + h4 + h5, h6);
    msgpack::lemma_at_concat(d, 0, h0 + h1 + h2 + h3 + h4, h5);
    msgpack::lemma_at_concat(d, 0, h0 + h1 + h2 + h3, h4);
    msgpack::lemma_at_concat(d, 0, h0 + h1 + h2, h3);
    msgpack::lemma_at_concat(d, 0, h0 + h1, h2);
    msgpack::lemma_at_concat(d, 0, h0, h1);
    let p0 = h0.len() as int;
    let p1 = p0 + h1.len();
    let p2 = p1 + h2.len();
    let p3 = p2 + h3.len();
    let p4 = p3 + h4.len();
    let p5 = p4 + h5.len();
    msgpack::law_array_header(d, 0, n);
    msgpack::law_double(d, p0, m.timestamp, 0);
    msgpack::law_bin(d, p1, m.title, 0);
    msgpack::law_bin(d, p2, m.content, 0);
    msgpack::law_map_header(d, p3, m.fields.len());
    let one = |f: (i64, Seq<u8>)| field_bytes(f);
    assert forall|i: int, q: int|
        0 <= i < m.fields.len() && #[trigger] msgpack::at(d, q, one(m.fields[i])) implies field_at(
        d,
    )(q) == Ok::<((i64, Seq<u8>), int), msgpack::Error>(
        (m.fields[i], q + one(m.fields[i]).len()),
    ) by {
        let f = m.fields[i];
        msgpack::lemma_at_concat(d, q, msgpack::int_bytes(f.0 as int), f.1);
        msgpack::law_int(d, q, f.0 as int, 0);
        msgpack::law_raw(d, q + msgpack::int_bytes(f.0 as int).len(), f.1);
    }
    msgpack::law_list(d, field_at(d), one, p4, m.fields);
    if let Some(s) = m.stamp {
        msgpack::law_bin(d, p5, s, 0);
    }
}

/// Unpacking a packed message gives back its hashes, its signature, its
/// payload and its identifier, whether the destination travels with it or is
/// inferred.
pub proof fn law_unpack_pack(m: Message, method: DeliveryMethod, r: Result<Message, MessageError>)
    requires
        payload_valid(m.payload()),
        m.packed().len() <= usize::MAX,
        m.message_id@ == id_of(m.destination_hash@, m.source_hash@, m.payload()),
        if method == DeliveryMethod::Opportunistic {
            unpacked(m.packed().skip(16), Some(m.destination_hash), method, r)
        } else {
            unpacked(m.packed(), None, method, r)
        },
    ensures
        r is Ok,
        r->Ok_0.destination_hash == m.destination_hash,
        r->Ok_0.source_hash == m.source_hash,
        r->Ok_0.signature == m.signature,
        r->Ok_0.payload() == m.payload(),
        r->Ok_0.message_id == m.message_id,
        r->Ok_0.signed() == m.signed(),
        r->Ok_0.method == method,
{
    let d = m.packed();
    let body = payload_bytes(m.payload());
    law_payload_round_trip(m.payload());
    assert(m.destination_hash@ + d.skip(16) =~= d);
    assert(d.subrange(0, 16) =~= m.destination_hash@);
    assert(d.subrange(16, 32) =~= m.source_hash@);
    assert(d.subrange(32, 96) =~= m.signature@);
    assert(d.subrange(96, d.len() as int) =~= body);
    reveal(msgpack::double_bytes);
    let u = r->Ok_0;
    crate::bytemap::lemma_array_injective(u.destination_hash, m.destination_hash);
    crate::bytemap::lemma_array_injective(u.source_hash, m.source_hash);
    crate::bytemap::lemma_array_injective(u.signature, m.signature);
    crate::bytemap::lemma_array_injective(u.message_id, m.message_id);
}

/// A stamp changes neither the identifier of a message nor what its signature
/// covers.
pub proof fn law_stamp_outside_identity(m: Message, stamp: Option<Vec<u8>>)
    ensures
        ({
            let s = Message { stamp, ..m };
            &&& id_of(s.destination_hash@, s.source_hash@, s.payload()) == id_of(
                m.destination_hash@,
                m.source_hash@,
                m.payload(),
            )
            &&& s.signed() == m.signed()
        }),
{
}

/// A message was created from its parts.
pub open spec fn created(
    destination_hash: [u8; 16],
    source_hash: [u8; 16],
    signature: Option<[u8; 64]>,
    timestamp: u64,
    title: Vec<u8>,
    content: Vec<u8>,
    fields: Vec<Field>,
    method: DeliveryMethod,
    r: Result<Message, MessageError>,
) -> bool {
    match r {
        Ok(m) => {
            &&& fields_valid(fields_view(fields@))
            &&& signature == Some(m.signature)
            &&& m.destination_hash == destination_hash
            &&& m.source_hash == source_hash
            &&& m.timestamp == timestamp
            &&& m.title == title
            &&& m.content == content
            &&& m.fields == fields
            &&& m.stamp is None
            &&& m.message_id@ == id_of(destination_hash@, source_hash@, m.payload())
            &&& m.verification == Verification::Valid
            &&& m.method == method
        },
        Err(MessageError::InvalidField) => !fields_valid(fields_view(fields@)),
        Err(e) => {
            &&& e == MessageError::Identity
            &&& fields_valid(fields_view(fields@))
            &&& signature is None
        },
    }
}

/// The bytes to sign for a message, and its identifier.
pub open spec fn signing(
    destination_hash: Seq<u8>,
    source_hash: Seq<u8>,
    timestamp: u64,
    title: Seq<u8>,
    content: Seq<u8>,
    fields: Seq<(i64, Seq<u8>)>,
    r: Result<(Vec<u8>, [u8; 32]), MessageError>,
) -> bool {
    let m = Payload {
        timestamp,
        title,
        content,
        fields,
        stamp: None,
    };
    match r {
        Ok((bytes, id)) => {
            &&& fields_valid(fields)
            &&& id@ == id_of(destination_hash, source_hash, m)
            &&& bytes@ == hashed_bytes(destination_hash, source_hash, m) + id@
        },
        Err(e) => e == MessageError::InvalidField && !fields_valid(
            fields,
        ),
    }
}

/// What giving a message a stamp does.
pub open spec fn stamp_set(
    before: Message,
    after: Message,
    stamp: Vec<u8>,
    r: Result<(), MessageError>,
) -> bool {
    if stamp@.len() == 16 || stamp@.len() == 32 {
        r is Ok && after == (Message { stamp: Some(stamp), ..before })
    } else {
        r == Err::<(), MessageError>(MessageError::InvalidFormat) && after == before
    }
}

} // verus!
