use vstd::prelude::*;
use crate::cursor::{header_of, read_byte, read_header, ByteCursor};
use crate::encoding::{header_bytes, lemma_header_round_trip};
use crate::error::FormatError;
use crate::inflate::{payload_at, read_object_content};
use crate::varint::{
    lemma_offset_end, lemma_size_header_end, offset_varint, read_offset, read_size_header,
    size_header,
};

verus! {

/// What kind of object an entry holds. The two delta kinds name their base
/// object and carry delta instructions as payload; the base is not resolved.
#[derive(Clone, Copy, Debug, PartialEq, Eq)]
pub enum PackObjectType {
    Commit,
    Tree,
    Blob,
    Tag,
    /// A delta against the object that starts this many bytes before the
    /// start of this one.
    OfsDelta(usize),
    /// A delta against the object with this twenty-byte identifier.
    RefDelta([u8; 20]),
}

/// The mathematical content of a [`PackObjectType`].
pub enum ObjectKind {
    Commit,
    Tree,
    Blob,
    Tag,
    OfsDelta(nat),
    RefDelta(Seq<u8>),
}

impl View for PackObjectType {
    type V = ObjectKind;

    open spec fn view(&self) -> ObjectKind {
        match *self {
            PackObjectType::Commit => ObjectKind::Commit,
            PackObjectType::Tree => ObjectKind::Tree,
            PackObjectType::Blob => ObjectKind::Blob,
            PackObjectType::Tag => ObjectKind::Tag,
            PackObjectType::OfsDelta(distance) => ObjectKind::OfsDelta(distance as nat),
            PackObjectType::RefDelta(base) => ObjectKind::RefDelta(base@),
        }
    }
}

/// The kind of an object with type tag `tag` whose delta metadata, if its
/// kind has any, starts at `at`, and the index just past that metadata.
pub open spec fn object_kind_at(s: Seq<u8>, at: int, tag: u8) -> Result<
    (ObjectKind, int),
    FormatError,
> {
    if tag == 1 {
        Ok((ObjectKind::Commit, at))
    } else if tag == 2 {
        Ok((ObjectKind::Tree, at))
    } else if tag == 3 {
        Ok((ObjectKind::Blob, at))
    } else if tag == 4 {
        Ok((ObjectKind::Tag, at))
    } else if tag == 6 {
        match offset_varint(s, at) {
            None => Err(FormatError::Truncated),
            Some((distance, end)) => if distance > usize::MAX {
                Err(FormatError::Overflow)
            } else {
                Ok((ObjectKind::OfsDelta(distance), end))
            },
        }
    } else if tag == 7 {
        if 0 <= at && at + 20 <= s.len() {
            Ok((ObjectKind::RefDelta(s.subrange(at, at + 20)), at + 20))
        } else {
            Err(FormatError::Truncated)
        }
    } else {
        Err(FormatError::UnknownObjectType(tag))
    }
}

/// Turns a type tag into an object kind, reading the base distance of an
/// offset delta or the twenty-byte base identifier of a reference delta from
/// the cursor. On failure the cursor is unmoved.
pub fn read_object_type(r: &mut ByteCursor, id: u8) -> (res: Result<PackObjectType, FormatError>)
    ensures
        final(r).bytes() == old(r).bytes(),
        match res {
            Ok(kind) => object_kind_at(old(r).bytes(), old(r).offset(), id) == Ok::<
                (ObjectKind, int),
                FormatError,
            >((kind@, final(r).offset())),
            Err(e) => object_kind_at(old(r).bytes(), old(r).offset(), id) == Err::<
                (ObjectKind, int),
                FormatError,
            >(e) && final(r).offset() == old(r).offset(),
        },
{
    match id {
        1 => Ok(PackObjectType::Commit),
        2 => Ok(PackObjectType::Tree),
        3 => Ok(PackObjectType::Blob),
        4 => Ok(PackObjectType::Tag),
        6 => {
            match read_offset(r) {
                Ok(distance) => Ok(PackObjectType::OfsDelta(distance)),
                Err(e) => Err(e),
            }
        },
        7 => {
            let start: usize = r.position();
            let len: usize = r.data().len();
            if start > len || len - start < 20 {
                return Err(FormatError::Truncated);
            }
            let mut base: [u8; 20] = [0;20];
            let mut i: usize = 0;
            while i < 20
                invariant
                    i <= 20,
                    start + 20 <= len,
                    len == r.bytes().len(),
                    r.bytes() == old(r).bytes(),
                    start == old(r).offset(),
                    r.offset() == start + i,
                    forall|k: int| 0 <= k < i ==> base@[k] == r.bytes()[start + k],
                decreases 20 - i,
            {
                match read_byte(r) {
                    Ok(b) => {
                        base[i] = b;
                    },
                    Err(e) => {
                        r.seek(start);
                        return Err(e);
                    },
                }
                i = i + 1;
            }
            assert(base@ =~= old(r).bytes().subrange(start as int, start + 20));
            Ok(PackObjectType::RefDelta(base))
        },
        _ => Err(FormatError::UnknownObjectType(id)),
    }
}

/// One decoded entry of a pack: its kind, its declared size and its payload,
/// which is always exactly as long as the declared size. For a delta kind the
/// payload is the delta instructions.
#[derive(Debug, PartialEq, Eq)]
pub struct PackfileObject {
    obj_type: PackObjectType,
    size: usize,
    content: Vec<u8>,
}

/// The mathematical content of a [`PackfileObject`].
pub struct ObjectView {
    pub kind: ObjectKind,
    pub size: nat,
    pub content: Seq<u8>,
}

impl View for PackfileObject {
    type V = ObjectView;

    closed spec fn view(&self) -> ObjectView {
        ObjectView { kind: self.obj_type@, size: self.size as nat, content: self.content@ }
    }
}

impl PackfileObject {
    #[verifier::type_invariant]
    spec fn well_formed(&self) -> bool {
        self.content@.len() == self.size
    }

    /// The kind of the object.
    pub fn obj_type(&self) -> (kind: PackObjectType)
        ensures
            kind@ == self@.kind,
    {
        self.obj_type
    }

    /// The declared size of the payload.
    pub fn size(&self) -> (size: usize)
        ensures
            size == self@.size,
            size == self@.content.len(),
    {
        proof {
            use_type_invariant(self);
        }
        self.size
    }

    /// The payload.
    pub fn content(&self) -> (content: &Vec<u8>)
        ensures
            content@ == self@.content,
            content@.len() == self@.size,
    {
        proof {
            use_type_invariant(self);
        }
        &self.content
    }
}

/// The object number `index` that starts at `at`, and the index just past
/// its compressed block: the size and type header, then the delta metadata
/// its kind asks for, then the payload. A declared size that no buffer can
/// have is an overflow, whatever the tag.
pub open spec fn object_at(s: Seq<u8>, at: int, index: u32) -> Result<(ObjectView, int), FormatError> {
    match size_header(s, at) {
        None => Err(FormatError::Truncated),
        Some((tag, size, after_header)) => if size > isize::MAX {
            Err(FormatError::Overflow)
        } else {
            match object_kind_at(s, after_header, tag) {
                Err(e) => Err(e),
                Ok((kind, after_kind)) => match payload_at(s, after_kind, size, index) {
                    Err(e) => Err(e),
                    Ok((content, end)) => Ok((ObjectView { kind, size, content }, end)),
                },
            }
        },
    }
}

/// Reads object number `index` from the cursor and leaves the cursor on the
/// first byte after its compressed block. On failure the cursor is unmoved.
pub fn read_object(r: &mut ByteCursor, index: u32) -> (res: Result<PackfileObject, FormatError>)
    ensures
        final(r).bytes() == old(r).bytes(),
        match res {
            Ok(object) => object_at(old(r).bytes(), old(r).offset(), index) == Ok::<
                (ObjectView, int),
                FormatError,
            >((object@, final(r).offset())),
            Err(e) => object_at(old(r).bytes(), old(r).offset(), index) == Err::<
                (ObjectView, int),
                FormatError,
            >(e) && final(r).offset() == old(r).offset(),
        },
{
    let start: usize = r.position();
    let (tag, size) = match read_size_header(r) {
        Ok(header) => header,
        Err(e) => {
            return Err(e);
        },
    };
    if size > isize::MAX as usize {
        r.seek(start);
        return Err(FormatError::Overflow);
    }
    let obj_type = match read_object_type(r, tag) {
        Ok(kind) => kind,
        Err(e) => {
            r.seek(start);
            return Err(e);
        },
    };
    let content = match read_object_content(r, size, index) {
        Ok(content) => content,
        Err(e) => {
            r.seek(start);
            return Err(e);
        },
    };
    Ok(PackfileObject { obj_type, size, content })
}

/// `head` put in front of the objects of a decoded run.
pub open spec fn preceded_by(
    head: Seq<ObjectView>,
    r: Result<(Seq<ObjectView>, int), FormatError>,
) -> Result<(Seq<ObjectView>, int), FormatError> {
    match r {
        Ok((objects, end)) => Ok((head + objects, end)),
        Err(e) => Err(e),
    }
}

/// The `count` objects that follow one another from `at` on, numbered from
/// `first`, and the index just past the last: each starts where the one
/// before it ended.
pub open spec fn objects_from(s: Seq<u8>, at: int, first: nat, count: nat) -> Result<
    (Seq<ObjectView>, int),
    FormatError,
>
    decreases count,
{
    if count == 0 {
        Ok((Seq::empty(), at))
    } else {
        match object_at(s, at, first as u32) {
            Err(e) => Err(e),
            Ok((object, next)) => preceded_by(
                seq![object],
                objects_from(s, next, first + 1, (count - 1) as nat),
            ),
        }
    }
}

/// The views of a run of objects, in order.
pub open spec fn object_views(objects: Seq<PackfileObject>) -> Seq<ObjectView> {
    objects.map_values(|o: PackfileObject| o@)
}

/// Reads `num_objects` objects one after another from the cursor and leaves
/// the cursor after the last. The first object that fails fails the whole
/// run, with its error and the cursor back where it started.
pub fn read_packfile_objects(r: &mut ByteCursor, num_objects: u32) -> (res: Result<
    Vec<PackfileObject>,
    FormatError,
>)
    ensures
        final(r).bytes() == old(r).bytes(),
        match res {
            Ok(objects) => objects_from(old(r).bytes(), old(r).offset(), 0, num_objects as nat)
                == Ok::<(Seq<ObjectView>, int), FormatError>(
                (object_views(objects@), final(r).offset()),
            ) && objects@.len() == num_objects,
            Err(e) => objects_from(old(r).bytes(), old(r).offset(), 0, num_objects as nat) == Err::<
                (Seq<ObjectView>, int),
                FormatError,
            >(e) && final(r).offset() == old(r).offset(),
        },
{
    let start: usize = r.position();
    let mut objects: Vec<PackfileObject> = Vec::new();
    let mut i: u32 = 0;
    while i < num_objects
        invariant
            i <= num_objects,
            r.bytes() == old(r).bytes(),
            start == old(r).offset(),
            objects@.len() == i,
            objects_from(old(r).bytes(), start as int, 0, num_objects as nat) == preceded_by(
                object_views(objects@),
                objects_from(old(r).bytes(), r.offset(), i as nat, (num_objects - i) as nat),
            ),
        decreases num_objects - i,
    {
        let ghost before = object_views(objects@);
        let ghost here = r.offset();
        match read_object(r, i) {
            Ok(object) => {
                objects.push(object);
                proof {
                    let rest = objects_from(
                        r.bytes(),
                        r.offset(),
                        (i + 1) as nat,
                        (num_objects - i - 1) as nat,
                    );
                    assert(object_views(objects@) =~= before + seq![object@]);
                    match rest {
                        Ok((tail, end)) => {
                            assert(before + (seq![object@] + tail) =~= (before + seq![object@])
                                + tail);
                        },
                        Err(e) => {},
                    }
                }
            },
            Err(e) => {
                r.seek(start);
                return Err(e);
            },
        }
        i = i + 1;
    }
    assert(object_views(objects@) + Seq::<ObjectView>::empty() =~= object_views(objects@));
    Ok(objects)
}

/// An object that decodes takes at least one byte and ends inside the
/// stream: the cursor only moves forward, and never past the end.
pub proof fn lemma_object_advances(s: Seq<u8>, at: int, index: u32)
    ensures
        object_at(s, at, index) matches Ok((object, end)) ==> 0 <= at < end <= s.len(),
{
    lemma_size_header_end(s, at);
    if let Some((tag, size, after_header)) = size_header(s, at) {
        lemma_offset_end(s, after_header);
    }
}

/// A run that decodes ends at or after its start, and inside the stream
/// when it holds any object.
pub proof fn lemma_objects_advance(s: Seq<u8>, at: int, first: nat, count: nat)
    ensures
        objects_from(s, at, first, count) matches Ok((objects, end)) ==> at <= end && (count > 0
            ==> 0 <= at && end <= s.len()),
    decreases count,
{
    if count > 0 {
        lemma_object_advances(s, at, first as u32);
        if let Ok((object, next)) = object_at(s, at, first as u32) {
            lemma_objects_advance(s, next, first + 1, (count - 1) as nat);
        }
    }
}

/// A run that decodes holds exactly as many objects as were asked for.
pub proof fn lemma_objects_from_count(s: Seq<u8>, at: int, first: nat, count: nat)
    ensures
        objects_from(s, at, first, count) matches Ok((objects, end)) ==> objects.len() == count,
    decreases count,
{
    if count > 0 {
        if let Ok((object, next)) = object_at(s, at, first as u32) {
            lemma_objects_from_count(s, next, first + 1, (count - 1) as nat);
        }
    }
}

/// The payload of an object that decodes is exactly as long as the size its
/// header declares.
pub proof fn lemma_object_content_len(s: Seq<u8>, at: int, index: u32)
    ensures
        object_at(s, at, index) matches Ok((object, end)) ==> object.content.len() == object.size,
{
}

/// Every object of a run that decodes has a payload exactly as long as its
/// declared size.
pub proof fn lemma_objects_content_len(s: Seq<u8>, at: int, first: nat, count: nat)
    ensures
        objects_from(s, at, first, count) matches Ok((objects, end)) ==> forall|i: int|
            0 <= i < objects.len() ==> (#[trigger] objects[i]).content.len() == objects[i].size,
    decreases count,
{
    if count > 0 {
        if let Ok((object, next)) = object_at(s, at, first as u32) {
            lemma_object_content_len(s, at, first as u32);
            lemma_objects_content_len(s, next, first + 1, (count - 1) as nat);
        }
    }
}

/// Decoding `m + n` objects is decoding `m` objects and then, from where
/// they ended, `n` more; the first failure of either part is the failure of
/// the whole.
pub proof fn lemma_objects_split(s: Seq<u8>, at: int, first: nat, m: nat, n: nat)
    ensures
        objects_from(s, at, first, m + n) == match objects_from(s, at, first, m) {
            Err(e) => Err(e),
            Ok((head, mid)) => preceded_by(head, objects_from(s, mid, first + m, n)),
        },
    decreases m,
{
    if m == 0 {
        match objects_from(s, at, first, n) {
            Ok((objects, end)) => {
                assert(Seq::<ObjectView>::empty() + objects =~= objects);
            },
            Err(e) => {},
        }
    } else {
        if let Ok((object, next)) = object_at(s, at, first as u32) {
            lemma_objects_split(s, next, first + 1, (m - 1) as nat, n);
            if let Ok((head, mid)) = objects_from(s, next, first + 1, (m - 1) as nat) {
                if let Ok((tail, end)) = objects_from(s, mid, first + m, n) {
                    assert(seq![object] + (head + tail) =~= (seq![object] + head) + tail);
                }
            }
        }
    }
}

/// In a run that decodes, object number `i` is the object that starts at the
/// exact byte where the `i` objects before it ended.
pub proof fn lemma_object_follows_its_predecessors(
    s: Seq<u8>,
    at: int,
    first: nat,
    count: nat,
    i: nat,
)
    requires
        i < count,
        objects_from(s, at, first, count) is Ok,
    ensures
        objects_from(s, at, first, i) matches Ok((before, start)) && object_at(
            s,
            start,
            (first + i) as u32,
        ) matches Ok((object, next)) && object == objects_from(s, at, first, count)->Ok_0.0[i as int],
{
    lemma_objects_split(s, at, first, i, (count - i) as nat);
    lemma_objects_from_count(s, at, first, i);
    let (before, start) = objects_from(s, at, first, i)->Ok_0;
    let (object, next) = object_at(s, start, (first + i) as u32)->Ok_0;
    let (tail, end) = objects_from(s, next, first + i + 1, (count - i - 1) as nat)->Ok_0;
    assert((before + (seq![object] + tail))[i as int] == object);
}

/// A decoded pack: the format version and the object count its header
/// declares, and its objects in stream order, always as many as declared.
#[derive(Debug, PartialEq, Eq)]
pub struct PackFile {
    version: u32,
    num_objects: u32,
    objects: Vec<PackfileObject>,
}

/// The mathematical content of a [`PackFile`].
pub struct PackView {
    pub version: u32,
    pub num_objects: u32,
    pub objects: Seq<ObjectView>,
}

/// What the byte stream `s` decodes to: the header's version and count, and
/// that many objects read one after another from the end of the header.
/// Bytes after the last object are not looked at.
pub open spec fn decoded(s: Seq<u8>) -> Result<PackView, FormatError> {
    match header_of(s) {
        Err(e) => Err(e),
        Ok((version, num_objects)) => match objects_from(s, 12, 0, num_objects as nat) {
            Err(e) => Err(e),
            Ok((objects, end)) => Ok(PackView { version, num_objects, objects }),
        },
    }
}

/// A pack whose header declares no objects decodes to an empty pack of the
/// header's version, whatever follows the header.
pub proof fn lemma_empty_pack_decodes(version: u32, rest: Seq<u8>)
    ensures
        decoded(header_bytes(version, 0) + rest) == Ok::<PackView, FormatError>(
            PackView { version, num_objects: 0, objects: Seq::empty() },
        ),
{
    lemma_header_round_trip(version, 0, rest);
}

impl View for PackFile {
    type V = PackView;

    closed spec fn view(&self) -> PackView {
        PackView {
            version: self.version,
            num_objects: self.num_objects,
            objects: object_views(self.objects@),
        }
    }
}

impl PackFile {
    #[verifier::type_invariant]
    spec fn well_formed(&self) -> bool {
        self.objects@.len() == self.num_objects
    }

    /// Decodes a whole pack from `data`: all of it or an error, never a part.
    pub fn decode(data: &[u8]) -> (res: Result<PackFile, FormatError>)
        ensures
            match res {
                Ok(pack) => decoded(data@) == Ok::<PackView, FormatError>(pack@)
                    && pack@.objects.len() == pack@.num_objects
                    && forall|i: int|
                    0 <= i < pack@.objects.len() ==> (#[trigger] pack@.objects[i]).content.len()
                        == pack@.objects[i].size,
                Err(e) => decoded(data@) == Err::<PackView, FormatError>(e),
            },
    {
        proof {
            if let Ok((version, num_objects)) = header_of(data@) {
                lemma_objects_from_count(data@, 12, 0, num_objects as nat);
                lemma_objects_content_len(data@, 12, 0, num_objects as nat);
            }
        }
        let mut cursor = ByteCursor::new(data);
        let (version, num_objects) = match read_header(&mut cursor) {
            Ok(header) => header,
            Err(e) => {
                return Err(e);
            },
        };
        match read_packfile_objects(&mut cursor, num_objects) {
            Ok(objects) => Ok(PackFile { version, num_objects, objects }),
            Err(e) => Err(e),
        }
    }

    /// The format version the header declares.
    pub fn version(&self) -> (version: u32)
        ensures
            version == self@.version,
    {
        self.version
    }

    /// The object count the header declares.
    pub fn num_objects(&self) -> (count: u32)
        ensures
            count == self@.num_objects,
            count == self@.objects.len(),
    {
        proof {
            use_type_invariant(self);
        }
        self.num_objects
    }

    /// The objects, in stream order.
    pub fn objects(&self) -> (objects: &Vec<PackfileObject>)
        ensures
            object_views(objects@) == self@.objects,
            objects@.len() == self@.num_objects,
    {
        proof {
            use_type_invariant(self);
        }
        &self.objects
    }
}

} // verus!
