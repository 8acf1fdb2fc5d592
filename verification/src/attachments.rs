//! Typed codecs for the standard LXMF attachment extension fields.
//!
//! Unknown extension fields remain available as [`Field`]; these helpers only
//! own the schemas defined for files, images and audio.
use vstd::prelude::*;

use crate::bytemap::to_vec;
use crate::constants::{FIELD_AUDIO, FIELD_FILE_ATTACHMENTS, FIELD_IMAGE};
use crate::message::Field;
use crate::msgpack;

verus! {

#[derive(Debug, Clone, PartialEq, Eq)]
pub struct FileAttachment {
    pub name: String,
    pub data: Vec<u8>,
}

#[derive(Debug, Clone, PartialEq, Eq)]
pub struct ImageAttachment {
    pub format: String,
    pub data: Vec<u8>,
}

#[derive(Debug, Clone, PartialEq, Eq)]
pub struct AudioAttachment {
    pub mode: u8,
    pub data: Vec<u8>,
}

#[derive(Debug, Clone, PartialEq, Eq)]
pub struct MessageAttachments {
    pub files: Vec<FileAttachment>,
    pub image: Option<ImageAttachment>,
    pub audio: Option<AudioAttachment>,
}

#[derive(Debug, Clone, Copy, PartialEq, Eq, Structural)]
pub enum AttachmentError {
    InvalidFormat,
}

impl From<msgpack::Error> for AttachmentError {
    fn from(e: msgpack::Error) -> (r: Self) {
        AttachmentError::InvalidFormat
    }
}

impl vstd::std_specs::convert::FromSpecImpl<msgpack::Error> for AttachmentError {
    open spec fn obeys_from_spec() -> bool {
        true
    }

    open spec fn from_spec(e: msgpack::Error) -> Self {
        AttachmentError::InvalidFormat
    }
}

fn lift<T>(r: Result<T, msgpack::Error>) -> (q: Result<T, AttachmentError>)
    ensures
        match r {
            Ok(v) => q == Ok::<T, AttachmentError>(v),
            Err(_) => q == Err::<T, AttachmentError>(AttachmentError::InvalidFormat),
        },
{
    match r {
        Ok(v) => Ok(v),
        Err(e) => Err(AttachmentError::from(e)),
    }
}

impl Default for MessageAttachments {
    fn default() -> (r: Self)
        ensures
            r@ == no_attachments(),
    {
        let r = MessageAttachments { files: Vec::new(), image: None, audio: None };
        assert(files_view(r.files@) =~= Seq::empty());
        r
    }
}

/// A name in UTF-8 and some data.
pub type Named = (Seq<u8>, Seq<u8>);

/// What a message has attached; names are UTF-8 bytes.
pub ghost struct Attached {
    pub files: Seq<Named>,
    pub image: Option<Named>,
    pub audio: Option<(u8, Seq<u8>)>,
}

pub open spec fn no_attachments() -> Attached {
    Attached { files: Seq::empty(), image: None, audio: None }
}

pub open spec fn file_view(f: FileAttachment) -> Named {
    (vstd::utf8::encode_utf8(f.name@), f.data@)
}

pub open spec fn files_view(files: Seq<FileAttachment>) -> Seq<Named> {
    files.map_values(|f: FileAttachment| file_view(f))
}

impl View for MessageAttachments {
    type V = Attached;

    open spec fn view(&self) -> Attached {
        Attached {
            files: files_view(self.files@),
            image: match self.image {
                Some(i) => Some((vstd::utf8::encode_utf8(i.format@), i.data@)),
                None => None,
            },
            audio: match self.audio {
                Some(a) => Some((a.mode, a.data@)),
                None => None,
            },
        }
    }
}

/// The pair `[name, data]`.
pub open spec fn named_bytes(f: Named) -> Seq<u8> {
    msgpack::array_header(2) + msgpack::str_bytes(f.0) + msgpack::bin_bytes(f.1)
}

pub open spec fn files_bytes(files: Seq<Named>) -> Seq<u8> {
    msgpack::array_header((files.len() as u32) as nat) + msgpack::list_bytes(
        |f: Named| named_bytes(f),
        files,
    )
}

/// The pair `[mode, data]`.
pub open spec fn audio_bytes(a: (u8, Seq<u8>)) -> Seq<u8> {
    msgpack::array_header(2) + msgpack::uint_bytes(a.0 as nat) + msgpack::bin_bytes(a.1)
}

/// The extension fields of the attachments: files, image, audio, each where
/// there is one.
pub open spec fn attachment_fields(a: Attached) -> Seq<(i64, Seq<u8>)> {
    (if a.files.len() > 0 {
        seq![(FIELD_FILE_ATTACHMENTS, files_bytes(a.files))]
    } else {
        Seq::empty()
    }) + (match a.image {
        Some(i) => seq![(FIELD_IMAGE, named_bytes(i))],
        None => Seq::empty(),
    }) + (match a.audio {
        Some(m) => seq![(FIELD_AUDIO, audio_bytes(m))],
        None => Seq::empty(),
    })
}

pub open spec fn named_at(d: Seq<u8>) -> spec_fn(int) -> Result<(Named, int), ()> {
    |p: int|
        match msgpack::array_len_at(d, p) {
            Ok((n, p0)) => if n != 2 {
                Err(())
            } else {
                match msgpack::str_at(d, p0) {
                    Ok((name, p1)) => match msgpack::bin_at(d, p1) {
                        Ok((data, p2)) => Ok(((name, data), p2)),
                        Err(_) => Err(()),
                    },
                    Err(_) => Err(()),
                }
            },
            Err(_) => Err(()),
        }
}

pub open spec fn files_of(d: Seq<u8>) -> Option<Seq<Named>> {
    match msgpack::array_len_at(d, 0) {
        Ok((n, p)) => match msgpack::list_at(named_at(d), p, n) {
            Ok((s, q)) => if q == d.len() {
                Some(s)
            } else {
                None
            },
            Err(_) => None,
        },
        Err(_) => None,
    }
}

pub open spec fn named_of(d: Seq<u8>) -> Option<Named> {
    match named_at(d)(0) {
        Ok((v, q)) => if q == d.len() {
            Some(v)
        } else {
            None
        },
        Err(_) => None,
    }
}

pub open spec fn audio_of(d: Seq<u8>) -> Option<(u8, Seq<u8>)> {
    match msgpack::array_len_at(d, 0) {
        Ok((n, p0)) => if n != 2 {
            None
        } else {
            match msgpack::uint_at(d, p0) {
                Ok((mode, p1)) => match msgpack::bin_at(d, p1) {
                    Ok((data, p2)) => if mode <= u8::MAX && p2 == d.len() {
                        Some((mode as u8, data))
                    } else {
                        None
                    },
                    Err(_) => None,
                },
                Err(_) => None,
            }
        },
        Err(_) => None,
    }
}

/// What the fields attach: the last field of each kind counts, unknown keys
/// are passed over, and a malformed known field spoils the whole.
pub open spec fn attached_of(fields: Seq<(i64, Seq<u8>)>) -> Option<Attached>
    decreases fields.len(),
{
    if fields.len() == 0 {
        Some(no_attachments())
    } else {
        match attached_of(fields.drop_last()) {
            None => None,
            Some(a) => {
                let (k, v) = fields.last();
                if k == FIELD_FILE_ATTACHMENTS {
                    match files_of(v) {
                        Some(files) => Some(Attached { files, ..a }),
                        None => None,
                    }
                } else if k == FIELD_IMAGE {
                    match named_of(v) {
                        Some(i) => Some(Attached { image: Some(i), ..a }),
                        None => None,
                    }
                } else if k == FIELD_AUDIO {
                    match audio_of(v) {
                        Some(m) => Some(Attached { audio: Some(m), ..a }),
                        None => None,
                    }
                } else {
                    Some(a)
                }
            },
        }
    }
}

proof fn lemma_attached_prefix(fields: Seq<(i64, Seq<u8>)>, i: int)
    requires
        0 <= i <= fields.len(),
        attached_of(fields.take(i)) is None,
    ensures
        attached_of(fields) is None,
    decreases fields.len() - i,
{
    if i < fields.len() {
        assert(fields.take(i + 1).drop_last() =~= fields.take(i));
        lemma_attached_prefix(fields, i + 1);
    } else {
        assert(fields.take(i) =~= fields);
    }
}

impl MessageAttachments {
    pub fn into_fields(self) -> (r: Vec<Field>)
        ensures
            crate::message::fields_view(r@) == attachment_fields(self@),
    {
        let mut fields: Vec<Field> = Vec::new();
        let ghost fv = files_view(self.files@);
        if self.files.len() > 0 {
            let mut value: Vec<u8> = Vec::new();
            msgpack::array(&mut value, self.files.len());
            let ghost head = value@;
            let ghost one = |f: Named| named_bytes(f);
            let mut i: usize = 0;
            while i < self.files.len()
                invariant
                    i <= self.files@.len(),
                    fv == files_view(self.files@),
                    one == (|f: Named| named_bytes(f)),
                    value@ == head + msgpack::list_bytes(one, fv.take(i as int)),
                decreases self.files@.len() - i,
            {
                let ghost before = value@;
                encode_named(&mut value, self.files[i].name.as_str(), self.files[i].data.as_slice());
                proof {
                    let t = fv.take(i + 1);
                    assert(t.drop_last() =~= fv.take(i as int));
                    assert(t.last() == fv[i as int]);
                    assert(value@ =~= head + msgpack::list_bytes(one, t));
                }
                i = i + 1;
            }
            assert(fv.take(fv.len() as int) =~= fv);
            assert(value@ =~= files_bytes(fv));
            fields.push((FIELD_FILE_ATTACHMENTS, value));
        }
        if let Some(image) = &self.image {
            let mut value: Vec<u8> = Vec::new();
            encode_named(&mut value, image.format.as_str(), image.data.as_slice());
            assert(value@ =~= named_bytes(self@.image->Some_0));
            fields.push((FIELD_IMAGE, value));
        }
        if let Some(audio) = &self.audio {
            let mut value: Vec<u8> = Vec::new();
            msgpack::array(&mut value, 2);
            msgpack::uint(&mut value, audio.mode as u64);
            msgpack::bin(&mut value, audio.data.as_slice());
            assert(value@ =~= audio_bytes(self@.audio->Some_0));
            fields.push((FIELD_AUDIO, value));
        }
        assert(crate::message::fields_view(fields@) =~= attachment_fields(self@));
        fields
    }

    pub fn from_fields(fields: &[Field]) -> (r: Result<MessageAttachments, AttachmentError>)
        ensures
            match attached_of(crate::message::fields_view(fields@)) {
                Some(a) => r is Ok && r->Ok_0@ == a,
                None => r is Err,
            },
    {
        let mut attachments = MessageAttachments::default();
        let ghost fv = crate::message::fields_view(fields@);
        assert(fv.take(0) =~= Seq::empty());
        let mut i: usize = 0;
        while i < fields.len()
            invariant
                i <= fields@.len(),
                fv == crate::message::fields_view(fields@),
                attached_of(fv.take(i as int)) == Some(attachments@),
            decreases fields@.len() - i,
        {
            proof {
                let t = fv.take(i + 1);
                assert(t.drop_last() =~= fv.take(i as int));
                assert(t.last() == fv[i as int]);
                if attached_of(t) is None {
                    lemma_attached_prefix(fv, i + 1);
                }
            }
            let key: i64 = fields[i].0;
            let value = fields[i].1.as_slice();
            if key == FIELD_FILE_ATTACHMENTS {
                let files = decode_files(value)?;
                attachments.files = files;
            } else if key == FIELD_IMAGE {
                let image = decode_image(value)?;
                attachments.image = Some(image);
            } else if key == FIELD_AUDIO {
                let audio = decode_audio(value)?;
                attachments.audio = Some(audio);
            }
            i = i + 1;
        }
        assert(fv.take(fv.len() as int) =~= fv);
        Ok(attachments)
    }
}

fn encode_named(value: &mut Vec<u8>, name: &str, data: &[u8])
    ensures
        final(value)@ == old(value)@ + named_bytes((vstd::utf8::encode_utf8(name@), data@)),
{
    msgpack::array(value, 2);
    msgpack::string(value, name);
    msgpack::bin(value, data);
    assert(value@ =~= old(value)@ + named_bytes((vstd::utf8::encode_utf8(name@), data@)));
}

fn decode_named(value: &[u8], position: &mut usize) -> (r: Result<
    (String, Vec<u8>),
    AttachmentError,
>)
    ensures
        match named_at(value@)(*old(position) as int) {
            Ok((v, q)) => r is Ok && (vstd::utf8::encode_utf8(r->Ok_0.0@), r->Ok_0.1@) == v
                && *final(position) == q,
            Err(_) => r is Err,
        },
{
    let n: usize = lift(msgpack::array_len(value, position))?;
    if n != 2 {
        return Err(AttachmentError::InvalidFormat);
    }
    let name = lift(msgpack::read_str(value, position))?.to_owned();
    let data = to_vec(lift(msgpack::read_bin(value, position))?);
    Ok((name, data))
}

fn decode_files(value: &[u8]) -> (r: Result<Vec<FileAttachment>, AttachmentError>)
    ensures
        match files_of(value@) {
            Some(s) => r is Ok && files_view(r->Ok_0@) == s,
            None => r is Err,
        },
{
    let mut position: usize = 0;
    let count: usize = lift(msgpack::array_len(value, &mut position))?;
    let ghost start = position as int;
    let mut files: Vec<FileAttachment> = Vec::new();
    assert(files_view(files@) =~= Seq::empty());
    let mut i: usize = 0;
    while i < count
        invariant
            i <= count,
            msgpack::list_at(named_at(value@), start, i as nat) == Ok::<(Seq<Named>, int), ()>(
                (files_view(files@), position as int),
            ),
            msgpack::list_at(named_at(value@), start, count as nat) is Err ==> files_of(
                value@,
            ) is None,
        decreases count - i,
    {
        proof {
            if msgpack::list_at(named_at(value@), start, (i + 1) as nat) is Err {
                msgpack::lemma_list_fails(named_at(value@), start, (i + 1) as nat, count as nat);
            }
        }
        let ghost before = files_view(files@);
        let (name, data) = decode_named(value, &mut position)?;
        let file = FileAttachment { name, data };
        files.push(file);
        assert(files_view(files@) =~= before.push(file_view(file)));
        i = i + 1;
    }
    finish(value, position)?;
    Ok(files)
}

fn decode_image(value: &[u8]) -> (r: Result<ImageAttachment, AttachmentError>)
    ensures
        match named_of(value@) {
            Some(v) => r is Ok && (vstd::utf8::encode_utf8(r->Ok_0.format@), r->Ok_0.data@) == v,
            None => r is Err,
        },
{
    let mut position: usize = 0;
    let (format, data) = decode_named(value, &mut position)?;
    finish(value, position)?;
    Ok(ImageAttachment { format, data })
}

fn decode_audio(value: &[u8]) -> (r: Result<AudioAttachment, AttachmentError>)
    ensures
        match audio_of(value@) {
            Some(v) => r is Ok && (r->Ok_0.mode, r->Ok_0.data@) == v,
            None => r is Err,
        },
{
    let mut position: usize = 0;
    let n: usize = lift(msgpack::array_len(value, &mut position))?;
    if n != 2 {
        return Err(AttachmentError::InvalidFormat);
    }
    let mode: u64 = lift(msgpack::read_uint(value, &mut position))?;
    if mode > 255 {
        return Err(AttachmentError::InvalidFormat);
    }
    let data = to_vec(lift(msgpack::read_bin(value, &mut position))?);
    finish(value, position)?;
    Ok(AudioAttachment { mode: mode as u8, data })
}

fn finish(value: &[u8], position: usize) -> (r: Result<(), AttachmentError>)
    ensures
        r is Ok <==> position == value@.len(),
{
    if position == value.len() {
        Ok(())
    } else {
        Err(AttachmentError::InvalidFormat)
    }
}

/// Names are valid UTF-8, and lengths fit their headers.
pub open spec fn named_ok(f: Named) -> bool {
    &&& vstd::utf8::valid_utf8(f.0)
    &&& f.0.len() <= u32::MAX
    &&& f.1.len() <= u32::MAX
}

pub open spec fn attached_ok(a: Attached) -> bool {
    &&& a.files.len() <= u32::MAX
    &&& files_bytes(a.files).len() <= usize::MAX
    &&& forall|i: int| 0 <= i < a.files.len() ==> named_ok(#[trigger] a.files[i])
    &&& a.image matches Some(i) ==> named_ok(i) && named_bytes(i).len() <= usize::MAX
    &&& a.audio matches Some(m) ==> m.1.len() <= u32::MAX && audio_bytes(m).len() <= usize::MAX
}

proof fn lemma_named(d: Seq<u8>, p: int, f: Named)
    requires
        msgpack::at(d, p, named_bytes(f)),
        named_ok(f),
    ensures
        named_at(d)(p) == Ok::<(Named, int), ()>((f, p + named_bytes(f).len())),
{
    let h0 = msgpack::array_header(2);
    let h1 = msgpack::str_bytes(f.0);
    let h2 = msgpack::bin_bytes(f.1);
    msgpack::lemma_at_concat(d, p, h0 + h1, h2);
    msgpack::lemma_at_concat(d, p, h0, h1);
    msgpack::law_array_header(d, p, 2);
    msgpack::law_str(d, p + h0.len(), f.0);
    msgpack::law_bin(d, p + h0.len() + h1.len(), f.1, 0);
}

proof fn lemma_files(files: Seq<Named>)
    requires
        files.len() <= u32::MAX,
        files_bytes(files).len() <= usize::MAX,
        forall|i: int| 0 <= i < files.len() ==> named_ok(#[trigger] files[i]),
    ensures
        files_of(files_bytes(files)) == Some(files),
{
    let d = files_bytes(files);
    let h = msgpack::array_header(files.len());
    let one = |f: Named| named_bytes(f);
    msgpack::lemma_at_whole(d);
    msgpack::lemma_at_concat(d, 0, h, msgpack::list_bytes(one, files));
    msgpack::law_array_header(d, 0, files.len());
    assert forall|i: int, q: int|
        0 <= i < files.len() && #[trigger] msgpack::at(d, q, one(files[i])) implies named_at(d)(q)
        == Ok::<(Named, int), ()>((files[i], q + one(files[i]).len())) by {
        lemma_named(d, q, files[i]);
    }
    msgpack::law_list(d, named_at(d), one, h.len() as int, files);
}

/// Attachments survive the way through their extension fields.
pub proof fn law_attachments_round_trip(a: Attached)
    requires
        attached_ok(a),
    ensures
        attached_of(attachment_fields(a)) == Some(a),
{
    let ff = if a.files.len() > 0 {
        seq![(FIELD_FILE_ATTACHMENTS, files_bytes(a.files))]
    } else {
        Seq::<(i64, Seq<u8>)>::empty()
    };
    let fi = match a.image {
        Some(i) => seq![(FIELD_IMAGE, named_bytes(i))],
        None => Seq::<(i64, Seq<u8>)>::empty(),
    };
    let fa = match a.audio {
        Some(m) => seq![(FIELD_AUDIO, audio_bytes(m))],
        None => Seq::<(i64, Seq<u8>)>::empty(),
    };
    reveal_with_fuel(attached_of, 2);
    let a0 = no_attachments();
    let a1 = Attached { files: a.files, ..a0 };
    let a2 = Attached { image: a.image, ..a1 };
    if a.files.len() > 0 {
        lemma_files(a.files);
        assert(ff.drop_last() =~= Seq::empty());
        assert(attached_of(ff) == Some(a1));
    } else {
        assert(a.files =~= Seq::empty());
        assert(attached_of(ff) == Some(a1));
    }
    if let Some(i) = a.image {
        msgpack::lemma_at_whole(named_bytes(i));
        lemma_named(named_bytes(i), 0, i);
        assert((ff + fi).drop_last() =~= ff);
        assert((ff + fi).last() == fi[0]);
        assert(attached_of(ff + fi) == Some(a2));
    } else {
        assert(ff + fi =~= ff);
        assert(attached_of(ff + fi) == Some(a2));
    }
    if let Some(m) = a.audio {
        let d = audio_bytes(m);
        let h0 = msgpack::array_header(2);
        let h1 = msgpack::uint_bytes(m.0 as nat);
        msgpack::lemma_at_whole(d);
        msgpack::lemma_at_concat(d, 0, h0 + h1, msgpack::bin_bytes(m.1));
        msgpack::lemma_at_concat(d, 0, h0, h1);
        msgpack::law_array_header(d, 0, 2);
        msgpack::law_uint(d, h0.len() as int, m.0 as u64);
        msgpack::law_bin(d, (h0.len() + h1.len()) as int, m.1, 0);
        assert((ff + fi + fa).drop_last() =~= ff + fi);
        assert((ff + fi + fa).last() == fa[0]);
        assert(attached_of(ff + fi + fa) == Some(a));
    } else {
        assert(ff + fi + fa =~= ff + fi);
    }
}

} // verus!
