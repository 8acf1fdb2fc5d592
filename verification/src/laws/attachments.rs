//! Attachments: which field they are, and what stands in it.
use vstd::prelude::*;

use crate::attachments::{
    attached_of, attachment_fields, audio_bytes, audio_of, files_bytes, files_of, named_at,
    named_bytes, named_of, Attached,
};
use crate::msgpack;

use super::gives;

verus! {

/// A file or an image is a pair of its name and its data.
pub proof fn law_named_elements(d: Seq<u8>, p: int, p0: int, name: Seq<u8>, p1: int, data: Seq<u8>, p2: int)
    requires
        gives(msgpack::array_len_at(d, p), 2, p0),
        gives(msgpack::str_at(d, p0), name, p1),
        gives(msgpack::bin_at(d, p1), data, p2),
    ensures
        gives(named_at(d)(p), (name, data), p2),
        p == 0 ==> named_of(d) == if p2 == d.len() {
            Some((name, data))
        } else {
            None
        },
{
}

/// What is read as a file or an image is a pair of a text and data.
pub proof fn law_named_is_read(d: Seq<u8>, p: int)
    requires
        named_at(d)(p) is Ok,
    ensures
        ({
            let (f, q) = named_at(d)(p)->Ok_0;
            let (n, p0) = msgpack::array_len_at(d, p)->Ok_0;
            let p1 = msgpack::str_at(d, p0)->Ok_0.1;
            &&& msgpack::array_len_at(d, p) is Ok
            &&& n == 2
            &&& gives(msgpack::str_at(d, p0), f.0, p1)
            &&& gives(msgpack::bin_at(d, p1), f.1, q)
        }),
{
}

/// Files are a list of such pairs, in order.
pub proof fn law_files_elements(d: Seq<u8>, n: nat, p: int, s: Seq<(Seq<u8>, Seq<u8>)>, q: int)
    requires
        gives(msgpack::array_len_at(d, 0), n, p),
        gives(msgpack::list_at(named_at(d), p, n), s, q),
    ensures
        files_of(d) == if q == d.len() {
            Some(s)
        } else {
            None
        },
{
}

/// A recording is a pair of its mode and its data.
pub proof fn law_audio_elements(d: Seq<u8>, p0: int, mode: u64, p1: int, data: Seq<u8>, p2: int)
    requires
        gives(msgpack::array_len_at(d, 0), 2, p0),
        gives(msgpack::uint_at(d, p0), mode, p1),
        gives(msgpack::bin_at(d, p1), data, p2),
    ensures
        audio_of(d) == if mode < 256 && p2 == d.len() {
            Some((mode as u8, data))
        } else {
            None
        },
{
}

/// The files are in field 5, the image in field 6 and the recording in field 7;
/// other fields attach nothing, and the last field of a kind counts.
pub proof fn law_attachment_keys(fields: Seq<(i64, Seq<u8>)>, k: i64, v: Seq<u8>)
    requires
        attached_of(fields) is Some,
    ensures
        ({
            let a = attached_of(fields)->Some_0;
            let next = attached_of(fields.push((k, v)));
            &&& k == 5 ==> match files_of(v) {
                Some(files) => next == Some(
                    Attached { files, image: a.image, audio: a.audio },
                ),
                None => next is None,
            }
            &&& k == 6 ==> match named_of(v) {
                Some(image) => next == Some(
                    Attached { files: a.files, image: Some(image), audio: a.audio },
                ),
                None => next is None,
            }
            &&& k == 7 ==> match audio_of(v) {
                Some(audio) => next == Some(
                    Attached { files: a.files, image: a.image, audio: Some(audio) },
                ),
                None => next is None,
            }
            &&& k != 5 && k != 6 && k != 7 ==> next == Some(a)
        }),
        attached_of(Seq::empty()) == Some(
            Attached { files: Seq::empty(), image: None, audio: None },
        ),
{
    assert(fields.push((k, v)).drop_last() =~= fields);
}

/// Every attachment becomes one field under its key, and nothing else becomes
/// a field.
pub proof fn law_attachment_fields(a: Attached, k: i64, v: Seq<u8>)
    ensures
        attachment_fields(a).contains((k, v)) <==> {
            ||| k == 5 && a.files.len() > 0 && v == files_bytes(a.files)
            ||| k == 6 && a.image is Some && v == named_bytes(a.image->Some_0)
            ||| k == 7 && a.audio is Some && v == audio_bytes(a.audio->Some_0)
        },
        attachment_fields(a).len() <= 3,
{
    let f = attachment_fields(a);
    if k == 5 && a.files.len() > 0 && v == files_bytes(a.files) {
        assert(f[0] == (k, v));
    }
    let n: int = if a.files.len() > 0 {
        1
    } else {
        0
    };
    if k == 6 && a.image is Some && v == named_bytes(a.image->Some_0) {
        assert(f[n] == (k, v));
    }
    let m: int = if a.image is Some {
        n + 1
    } else {
        n
    };
    if k == 7 && a.audio is Some && v == audio_bytes(a.audio->Some_0) {
        assert(f[m] == (k, v));
    }
}

/// A written pair is a list of two: a text and data, or a number and data.
pub proof fn law_attachment_layout(f: (Seq<u8>, Seq<u8>), a: (u8, Seq<u8>))
    ensures
        named_bytes(f) == seq![0x92u8] + msgpack::str_bytes(f.0) + msgpack::bin_bytes(f.1),
        audio_bytes(a) == seq![0x92u8] + msgpack::uint_bytes(a.0 as nat) + msgpack::bin_bytes(a.1),
{
    reveal(msgpack::array_header);
}

} // verus!
