//! Messages: what is on the wire, what is signed and what is identified.
use vstd::prelude::*;

use crate::message::{
    array, checked, created, field_at, fields_valid, fields_view, full_bytes, hashed_bytes, id_of,
    law_payload_round_trip, mail_bytes, mail_of, payload_bytes, payload_of, payload_valid, signing,
    stamp_set, DeliveryMethod, Field, Mail, Message, MessageError, Payload, SignatureCheck,
    Verification,
};
use crate::msgpack;

use super::gives;

verus! {

/// A payload is an array of the time, the title, the content and the fields,
/// in this order, with the stamp as a fifth element where there is one. What
/// stands in the array is what is read, and nothing may follow it.
pub proof fn law_payload_elements(
    d: Seq<u8>,
    n: nat,
    p0: int,
    timestamp: u64,
    p1: int,
    title: Seq<u8>,
    p2: int,
    content: Seq<u8>,
    p3: int,
    count: nat,
    p4: int,
    fields: Seq<(i64, Seq<u8>)>,
    p5: int,
)
    requires
        gives(msgpack::array_len_at(d, 0), n, p0),
        gives(msgpack::double_at(d, p0), timestamp, p1),
        gives(msgpack::bin_at(d, p1), title, p2),
        gives(msgpack::bin_at(d, p2), content, p3),
        gives(msgpack::map_len_at(d, p3), count, p4),
        gives(msgpack::list_at(field_at(d), p4, count), fields, p5),
    ensures
        n == 4 && p5 == d.len() ==> payload_of(d) == Some(
            Payload { timestamp, title, content, fields, stamp: None },
        ),
        forall|stamp: Seq<u8>, p6: int|
            n == 5 && #[trigger] gives(msgpack::bin_at(d, p5), stamp, p6) ==> payload_of(d) == if (
            stamp.len() == 16 || stamp.len() == 32) && p6 == d.len() {
                Some(Payload { timestamp, title, content, fields, stamp: Some(stamp) })
            } else {
                None::<Payload>
            },
        n == 4 && p5 != d.len() ==> payload_of(d) is None,
        n != 4 && n != 5 ==> payload_of(d) is None,
{
}

/// Whatever is read as a payload is one: every element has its type and its
/// place.
pub proof fn law_payload_is_read(d: Seq<u8>)
    requires
        payload_of(d) is Some,
    ensures
        ({
            let m = payload_of(d)->Some_0;
            let (n, p0) = msgpack::array_len_at(d, 0)->Ok_0;
            let (timestamp, p1) = msgpack::double_at(d, p0)->Ok_0;
            let (title, p2) = msgpack::bin_at(d, p1)->Ok_0;
            let (content, p3) = msgpack::bin_at(d, p2)->Ok_0;
            let (count, p4) = msgpack::map_len_at(d, p3)->Ok_0;
            let (fields, p5) = msgpack::list_at(field_at(d), p4, count)->Ok_0;
            &&& msgpack::array_len_at(d, 0) is Ok
            &&& msgpack::double_at(d, p0) is Ok
            &&& msgpack::bin_at(d, p1) is Ok
            &&& msgpack::bin_at(d, p2) is Ok
            &&& msgpack::map_len_at(d, p3) is Ok
            &&& msgpack::list_at(field_at(d), p4, count) is Ok
            &&& (m.timestamp, m.title, m.content, m.fields) == (timestamp, title, content, fields)
            &&& n == 4 ==> m.stamp is None && p5 == d.len()
            &&& n != 4 ==> n == 5 && m.stamp is Some && gives(
                msgpack::bin_at(d, p5),
                m.stamp->Some_0,
                d.len() as int,
            )
        }),
{
}

/// A field is its key and then its value, kept as it stands.
pub proof fn law_field_elements(d: Seq<u8>, p: int, key: i64, q: int, value: Seq<u8>, t: int)
    requires
        gives(msgpack::sint_at(d, p), key, q),
        gives(msgpack::raw_at(d, q), value, t),
    ensures
        gives(field_at(d)(p), (key, value), t),
{
}

/// The written payload begins with the header of its array, then the time, the
/// title and the content; the number of its fields and the fields follow, and
/// the stamp is last.
pub proof fn law_payload_layout(m: Payload)
    requires
        payload_valid(m),
        payload_bytes(m).len() <= usize::MAX,
    ensures
        ({
            let d = payload_bytes(m);
            let p1 = 1int + msgpack::double_bytes(m.timestamp).len();
            let p2 = p1 + msgpack::bin_bytes(m.title).len();
            let p3 = p2 + msgpack::bin_bytes(m.content).len();
            let p4 = p3 + msgpack::map_header(m.fields.len()).len();
            &&& d[0] == (if m.stamp is Some {
                0x95u8
            } else {
                0x94u8
            })
            &&& d.subrange(1, p1) == msgpack::double_bytes(m.timestamp)
            &&& d.subrange(p1, p2) == msgpack::bin_bytes(m.title)
            &&& d.subrange(p2, p3) == msgpack::bin_bytes(m.content)
            &&& d.subrange(p3, p4) == msgpack::map_header(m.fields.len())
            &&& m.stamp matches Some(s) ==> d.skip(d.len() - msgpack::bin_bytes(s).len())
                == msgpack::bin_bytes(s)
            &&& m.fields.len() == 0 && m.stamp is None ==> d.len() == p4
        }),
{
    reveal(msgpack::array_header);
    let d = payload_bytes(m);
    let h1 = msgpack::double_bytes(m.timestamp);
    let h2 = msgpack::bin_bytes(m.title);
    let h3 = msgpack::bin_bytes(m.content);
    let h4 = msgpack::map_header(m.fields.len());
    let p1 = 1int + h1.len();
    let p2 = p1 + h2.len();
    let p3 = p2 + h3.len();
    let p4 = p3 + h4.len();
    assert(d.subrange(1, p1) =~= h1);
    assert(d.subrange(p1, p2) =~= h2);
    assert(d.subrange(p2, p3) =~= h3);
    assert(d.subrange(p3, p4) =~= h4);
    if let Some(s) = m.stamp {
        let b = msgpack::bin_bytes(s);
        assert(d.skip(d.len() - b.len()) =~= b);
    }
}

/// A packed message is its destination, its source, its signature and its
/// payload, in this order.
pub proof fn law_packed_layout(m: Mail)
    ensures
        mail_bytes(m).len() == 96 + payload_bytes(m.payload).len(),
        mail_bytes(m).subrange(0, 16) == m.destination@,
        mail_bytes(m).subrange(16, 32) == m.source@,
        mail_bytes(m).subrange(32, 96) == m.signature@,
        mail_bytes(m).skip(96) == payload_bytes(m.payload),
{
    let d = mail_bytes(m);
    assert(d.subrange(0, 16) =~= m.destination@);
    assert(d.subrange(16, 32) =~= m.source@);
    assert(d.subrange(32, 96) =~= m.signature@);
    assert(d.skip(96) =~= payload_bytes(m.payload));
}

/// What the identifier is the digest of is the packed message without its
/// signature, and without its stamp.
pub proof fn law_hashed_is_packed_unsigned(m: Mail)
    ensures
        ({
            let bare = mail_bytes(Mail { payload: Payload { stamp: None, ..m.payload }, ..m });
            &&& hashed_bytes(m.destination@, m.source@, m.payload) == bare.take(32) + bare.skip(96)
            &&& id_of(m.destination@, m.source@, m.payload) == crate::hash::sha256(
                bare.take(32) + bare.skip(96),
            )
        }),
{
    let bare = mail_bytes(Mail { payload: Payload { stamp: None, ..m.payload }, ..m });
    law_packed_layout(Mail { payload: Payload { stamp: None, ..m.payload }, ..m });
    assert(bare.take(32) + bare.skip(96) =~= hashed_bytes(
        m.destination@,
        m.source@,
        m.payload,
    ));
}

/// Messages that differ in an address, the time, the title, the content or a
/// field differ in what is signed and identified.
pub proof fn law_hashed_determines_message(
    destination: Seq<u8>,
    source: Seq<u8>,
    m: Payload,
    other_destination: Seq<u8>,
    other_source: Seq<u8>,
    other: Payload,
)
    requires
        destination.len() == 16,
        source.len() == 16,
        other_destination.len() == 16,
        other_source.len() == 16,
        payload_valid(m),
        payload_valid(other),
        hashed_bytes(destination, source, m).len() <= usize::MAX,
        hashed_bytes(destination, source, m) == hashed_bytes(
            other_destination,
            other_source,
            other,
        ),
    ensures
        destination == other_destination,
        source == other_source,
        m.timestamp == other.timestamp,
        m.title == other.title,
        m.content == other.content,
        m.fields == other.fields,
{
    let a = Payload { stamp: None, ..m };
    let b = Payload { stamp: None, ..other };
    let d = hashed_bytes(destination, source, m);
    assert(d.subrange(0, 16) =~= destination);
    assert(d.subrange(0, 16) =~= other_destination);
    assert(d.subrange(16, 32) =~= source);
    assert(d.subrange(16, 32) =~= other_source);
    assert(d.skip(32) =~= payload_bytes(a));
    assert(d.skip(32) =~= payload_bytes(b));
    law_payload_round_trip(a);
    law_payload_round_trip(b);
}

/// A message that is unpacked has the addresses, the signature and the payload
/// that stand in the data, the identifier that follows from them, and the
/// trust that the signature check gives it.
pub proof fn law_unpacked_is_what_stands_there(
    data: Seq<u8>,
    inferred: Option<[u8; 16]>,
    check: SignatureCheck,
    method: DeliveryMethod,
    m: Mail,
)
    requires
        mail_of(data, inferred, check, method) == Ok::<Mail, MessageError>(m),
    ensures
        ({
            let short = method == DeliveryMethod::Opportunistic;
            let o: int = if short {
                16
            } else {
                0
            };
            &&& data.len() >= 97 - o
            &&& short ==> Some(m.destination) == inferred
            &&& !short ==> m.destination == array::<16>(data.subrange(0, 16))
            &&& m.source == array::<16>(data.subrange(16 - o, 32 - o))
            &&& m.signature == array::<64>(data.subrange(32 - o, 96 - o))
            &&& payload_of(data.skip(96 - o)) == Some(m.payload)
            &&& m.method == method
            &&& check != SignatureCheck::Failed
            &&& (m.verification == Verification::Valid <==> check == SignatureCheck::Accepted)
            &&& (m.verification == Verification::Invalid <==> check == SignatureCheck::Refused)
        }),
{
    let d = full_bytes(data, inferred, method);
    if method == DeliveryMethod::Opportunistic {
        let a = inferred->Some_0;
        assert(d.subrange(0, 16) =~= a@);
        crate::message::lemma_array(a);
        assert(d.subrange(16, 32) =~= data.subrange(0, 16));
        assert(d.subrange(32, 96) =~= data.subrange(16, 80));
        assert(d.subrange(96, d.len() as int) =~= data.skip(80));
    } else {
        assert(d.subrange(96, d.len() as int) =~= data.skip(96));
    }
}

/// Unpacking fails where the data is too short, where the payload cannot be
/// read, where an opportunistic packet comes without a destination, and where
/// the signature could not be checked; nowhere else.
pub proof fn law_unpack_refusals(
    data: Seq<u8>,
    inferred: Option<[u8; 16]>,
    check: SignatureCheck,
    method: DeliveryMethod,
)
    ensures
        method == DeliveryMethod::Opportunistic && inferred is None ==> mail_of(
            data,
            inferred,
            check,
            method,
        ) == Err::<Mail, MessageError>(MessageError::WrongDestination),
        method != DeliveryMethod::Opportunistic && data.len() < 97 ==> mail_of(
            data,
            inferred,
            check,
            method,
        ) == Err::<Mail, MessageError>(MessageError::TooShort),
        method == DeliveryMethod::Opportunistic && inferred is Some && data.len() < 81 ==> mail_of(
            data,
            inferred,
            check,
            method,
        ) == Err::<Mail, MessageError>(MessageError::TooShort),
        method != DeliveryMethod::Opportunistic && data.len() >= 97 ==> {
            &&& payload_of(data.skip(96)) is None ==> mail_of(data, inferred, check, method) == Err::<
                Mail,
                MessageError,
            >(MessageError::InvalidFormat)
            &&& payload_of(data.skip(96)) is Some ==> if check == SignatureCheck::Failed {
                mail_of(data, inferred, check, method) == Err::<Mail, MessageError>(
                    MessageError::Identity,
                )
            } else {
                mail_of(data, inferred, check, method) is Ok
            }
        },
{
    if method != DeliveryMethod::Opportunistic && data.len() >= 97 {
        assert(data.subrange(96, data.len() as int) =~= data.skip(96));
    }
}

/// The identifier of an unpacked message is the digest of its addresses and of
/// its payload as it is written without a stamp.
pub proof fn law_unpacked_identity(
    data: Seq<u8>,
    check: SignatureCheck,
    method: DeliveryMethod,
    m: Mail,
)
    requires
        method != DeliveryMethod::Opportunistic,
        mail_of(data, None, check, method) == Ok::<Mail, MessageError>(m),
    ensures
        m.id == array::<32>(
            crate::hash::sha256(
                data.take(32) + payload_bytes(Payload { stamp: None, ..m.payload }),
            ),
        ),
{
    assert(data.take(32) + payload_bytes(Payload { stamp: None, ..m.payload }) =~= data.subrange(
        0,
        16,
    ) + data.subrange(16, 32) + payload_bytes(Payload { stamp: None, ..m.payload }));
}

/// What is signed for a message is its addresses, then its payload, then the
/// digest of both: the payload reads back as the time, the title, the content
/// and the fields that were given, with no stamp, and the digest is the
/// identifier.
pub proof fn law_signed_bytes(
    destination: Seq<u8>,
    source: Seq<u8>,
    timestamp: u64,
    title: Seq<u8>,
    content: Seq<u8>,
    fields: Seq<(i64, Seq<u8>)>,
    r: Result<(Vec<u8>, [u8; 32]), MessageError>,
)
    requires
        signing(destination, source, timestamp, title, content, fields, r),
        destination.len() == 16,
        source.len() == 16,
        title.len() <= u32::MAX,
        content.len() <= u32::MAX,
        fields.len() <= u32::MAX,
    ensures
        r is Ok <==> fields_valid(fields),
        r is Err ==> r->Err_0 == MessageError::InvalidField,
        r is Ok && r->Ok_0.0@.len() <= usize::MAX ==> ({
            let b = r->Ok_0.0@;
            let n = b.len() - 32;
            let read = payload_of(b.subrange(32, n));
            &&& b.subrange(0, 16) == destination
            &&& b.subrange(16, 32) == source
            &&& read is Some
            &&& read->Some_0.timestamp == timestamp
            &&& read->Some_0.title == title
            &&& read->Some_0.content == content
            &&& read->Some_0.fields == fields
            &&& read->Some_0.stamp is None
            &&& b.subrange(n, n + 32) == crate::hash::sha256(b.subrange(0, n))
            &&& r->Ok_0.1@ == crate::hash::sha256(b.subrange(0, n))
        }),
{
    if r is Ok && r->Ok_0.0@.len() <= usize::MAX {
        let m = Payload { timestamp, title, content, fields, stamp: None };
        let b = r->Ok_0.0@;
        let id = r->Ok_0.1@;
        let h = hashed_bytes(destination, source, m);
        let n: int = h.len() as int;
        assert(id.len() == 32);
        assert(b.subrange(0, n) =~= h);
        assert(b.subrange(n, n + 32) =~= id);
        assert(b.subrange(32, n) =~= payload_bytes(m));
        assert(b.subrange(0, 16) =~= destination);
        assert(b.subrange(16, 32) =~= source);
        law_payload_round_trip(m);
    }
}

/// Two requests to sign the same bytes are for one message: the same
/// addresses, time, title, content and fields.
pub proof fn law_signed_bytes_differ(
    destination: Seq<u8>,
    source: Seq<u8>,
    m: Payload,
    r: Result<(Vec<u8>, [u8; 32]), MessageError>,
    other_destination: Seq<u8>,
    other_source: Seq<u8>,
    other: Payload,
    s: Result<(Vec<u8>, [u8; 32]), MessageError>,
)
    requires
        signing(destination, source, m.timestamp, m.title, m.content, m.fields, r),
        signing(
            other_destination,
            other_source,
            other.timestamp,
            other.title,
            other.content,
            other.fields,
            s,
        ),
        destination.len() == 16,
        source.len() == 16,
        other_destination.len() == 16,
        other_source.len() == 16,
        payload_valid(m),
        payload_valid(other),
        r is Ok,
        s is Ok,
        r->Ok_0.0@ == s->Ok_0.0@,
        r->Ok_0.0@.len() <= usize::MAX,
    ensures
        destination == other_destination,
        source == other_source,
        m.timestamp == other.timestamp,
        m.title == other.title,
        m.content == other.content,
        m.fields == other.fields,
{
    law_signed_bytes(destination, source, m.timestamp, m.title, m.content, m.fields, r);
    law_signed_bytes(
        other_destination,
        other_source,
        other.timestamp,
        other.title,
        other.content,
        other.fields,
        s,
    );
}

/// A created message is made of its parts, unstamped, and named by the digest
/// of what was signed.
pub proof fn law_created_message(
    destination_hash: [u8; 16],
    source_hash: [u8; 16],
    signature: Option<[u8; 64]>,
    timestamp: u64,
    title: Vec<u8>,
    content: Vec<u8>,
    fields: Vec<Field>,
    method: DeliveryMethod,
    r: Result<Message, MessageError>,
)
    requires
        created(
            destination_hash,
            source_hash,
            signature,
            timestamp,
            title,
            content,
            fields,
            method,
            r,
        ),
    ensures
        r is Ok <==> fields_valid(fields_view(fields@)) && signature is Some,
        !fields_valid(fields_view(fields@)) ==> r == Err::<Message, MessageError>(
            MessageError::InvalidField,
        ),
        r is Ok ==> ({
            let m = r->Ok_0;
            &&& m.destination_hash == destination_hash
            &&& m.source_hash == source_hash
            &&& Some(m.signature) == signature
            &&& m.timestamp == timestamp
            &&& m.title@ == title@
            &&& m.content@ == content@
            &&& m.fields@ == fields@
            &&& m.stamp is None
            &&& m.method == method
            &&& m.verification == Verification::Valid
            &&& m.message_id@ == crate::hash::sha256(
                destination_hash@ + source_hash@ + payload_bytes(
                    Payload {
                        timestamp,
                        title: title@,
                        content: content@,
                        fields: fields_view(fields@),
                        stamp: None,
                    },
                ),
            )
        }),
{
}

/// A stamp has 16 or 32 bytes, and replaces what was there; nothing else of
/// the message changes, its identifier included.
pub proof fn law_set_stamp(before: Message, after: Message, stamp: Vec<u8>, r: Result<(), MessageError>)
    requires
        stamp_set(before, after, stamp, r),
    ensures
        r is Ok <==> stamp@.len() == 16 || stamp@.len() == 32,
        r is Err ==> after == before && r->Err_0 == MessageError::InvalidFormat,
        r is Ok ==> after.stamp is Some && after.stamp->Some_0@ == stamp@,
        after.message_id == before.message_id,
        after.title == before.title,
        after.content == before.content,
        after.fields == before.fields,
        after.timestamp == before.timestamp,
        after.destination_hash == before.destination_hash,
        after.source_hash == before.source_hash,
        after.signature == before.signature,
        after.method == before.method,
        after.verification == before.verification,
{
}

/// A message is read as its parts.
pub proof fn law_parts_of_a_message(m: Message)
    ensures
        m.payload().timestamp == m.timestamp,
        m.payload().title == m.title@,
        m.payload().content == m.content@,
        m.payload().fields.len() == m.fields@.len(),
        forall|i: int|
            0 <= i < m.fields@.len() ==> (#[trigger] m.payload().fields[i]).0 == m.fields@[i].0
                && m.payload().fields[i].1 == m.fields@[i].1@,
        m.stamp is None <==> m.payload().stamp is None,
        m.stamp is Some ==> m.payload().stamp->Some_0 == m.stamp->Some_0@,
        m.packed() == m.destination_hash@ + m.source_hash@ + m.signature@ + payload_bytes(
            m.payload(),
        ),
        m@.id == m.message_id,
        m@.destination == m.destination_hash,
        m@.source == m.source_hash,
        m@.signature == m.signature,
        m@.payload == m.payload(),
        m@.method == m.method,
        m@.verification == m.verification,
{
}

/// What unpacking gives, with what is known of the signature, is the message
/// that stands in the bytes, or the reason that none does.
pub proof fn law_unpacking_agrees(
    data: Seq<u8>,
    inferred: Option<[u8; 16]>,
    check: SignatureCheck,
    method: DeliveryMethod,
    r: Result<Message, MessageError>,
)
    requires
        checked(data, inferred, check, method, r),
    ensures
        match mail_of(data, inferred, check, method) {
            Ok(mail) => r is Ok && r->Ok_0@ == mail,
            Err(e) => r == Err::<Message, MessageError>(e),
        },
{
    crate::message::lemma_mail_of(data, inferred, check, method, r);
}

} // verus!
