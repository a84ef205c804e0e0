//! PDF documents: their objects, and how references between them are followed.

use vstd::prelude::*;
use vstd::string::*;
use vstd::utf8::encode_utf8;

verus! {

/// The number of an object and its generation.
pub type ObjectId = (u32, u16);

/// An object of a document. A real number is held as the bits of its single precision.
pub enum PdfObject {
    Null,
    Boolean(bool),
    Integer(i64),
    Real(u32),
    Name(Vec<u8>),
    Text(Vec<u8>),
    Array(Vec<PdfObject>),
    Dictionary(PdfDictionary),
    Stream(PdfStream),
    Reference(ObjectId),
}

/// A dictionary: keys and what they stand for, in order.
pub struct PdfDictionary {
    pub entries: Vec<(Vec<u8>, PdfObject)>,
}

/// A stream: a dictionary that describes it, and its bytes.
pub struct PdfStream {
    pub dict: PdfDictionary,
    pub content: Vec<u8>,
}

/// A page: its number from 1 on, its object, and its content streams.
pub struct PdfPage {
    pub number: u32,
    pub id: ObjectId,
    pub contents: Vec<ObjectId>,
}

/// A document: its objects in the order of their numbers, and its pages.
pub struct PdfDocument {
    pub objects: Vec<(ObjectId, PdfObject)>,
    pub pages: Vec<PdfPage>,
}

/// The pages are numbered from one on, in order.
pub open spec fn is_numbered(document: PdfDocument) -> bool {
    forall|i: int| 0 <= i < document.pages@.len() ==> (#[trigger] document.pages@[i]).number == i + 1
}

/// The bytes of a key or name.
pub open spec fn key(text: Seq<char>) -> Seq<u8> {
    encode_utf8(text)
}

/// What a key stands for among some entries: the first that has it.
pub open spec fn entry(entries: Seq<(Vec<u8>, PdfObject)>, k: Seq<u8>) -> Option<PdfObject>
    decreases entries.len(),
{
    if entries.len() == 0 {
        None
    } else if entries[0].0@ == k {
        Some(entries[0].1)
    } else {
        entry(entries.drop_first(), k)
    }
}

/// What a key stands for in a dictionary.
pub open spec fn lookup(dict: PdfDictionary, k: Seq<char>) -> Option<PdfObject> {
    entry(dict.entries@, key(k))
}

/// Whether two byte strings are the same.
pub fn bytes_equal(a: &[u8], b: &[u8]) -> (r: bool)
    ensures
        r == (a@ == b@),
{
    if a.len() != b.len() {
        return false;
    }
    for i in 0..a.len()
        invariant
            a@.len() == b@.len(),
            forall|j: int| 0 <= j < i ==> a@[j] == b@[j],
    {
        if a[i] != b[i] {
            return false;
        }
    }
    assert(a@ =~= b@);
    true
}

/// Whether a name is the given one.
pub fn name_is(name: &Vec<u8>, text: &str) -> (r: bool)
    ensures
        r == (name@ == key(text@)),
{
    bytes_equal(name.as_slice(), text.as_bytes())
}

impl PdfDictionary {
    /// What a key stands for.
    pub fn get(&self, k: &str) -> (r: Option<&PdfObject>)
        ensures
            r is Some <==> lookup(*self, k@) is Some,
            r matches Some(object) ==> lookup(*self, k@) == Some(*object),
    {
        assert(self.entries@.subrange(0, self.entries@.len() as int) =~= self.entries@);
        for i in 0..self.entries.len()
            invariant
                lookup(*self, k@) == entry(
                    self.entries@.subrange(i as int, self.entries@.len() as int),
                    key(k@),
                ),
        {
            let ghost rest = self.entries@.subrange(i as int, self.entries@.len() as int);
            assert(rest.drop_first() =~= self.entries@.subrange(i + 1, self.entries@.len() as int));
            if name_is(&self.entries[i].0, k) {
                return Some(&self.entries[i].1);
            }
        }
        None
    }

    /// The integer that a key stands for, where it is one.
    pub fn integer(&self, k: &str) -> (r: Option<i64>)
        ensures
            r == integer_at(*self, k@),
    {
        match self.get(k) {
            Some(PdfObject::Integer(value)) => Some(*value),
            _ => None,
        }
    }
}

/// The integer that a key stands for, where it is one.
pub open spec fn integer_at(dict: PdfDictionary, k: Seq<char>) -> Option<i64> {
    match lookup(dict, k) {
        Some(PdfObject::Integer(value)) => Some(value),
        _ => None,
    }
}

/// Whether a key stands for the name given.
pub open spec fn has_name(dict: PdfDictionary, k: Seq<char>, name: Seq<char>) -> bool {
    lookup(dict, k) matches Some(PdfObject::Name(bytes)) && bytes@ == key(name)
}

/// Whether a key stands for the name given.
pub fn is_named(dict: &PdfDictionary, k: &str, name: &str) -> (r: bool)
    ensures
        r == has_name(*dict, k@, name@),
{
    match dict.get(k) {
        Some(PdfObject::Name(bytes)) => name_is(bytes, name),
        _ => false,
    }
}

/// The object with a number, among some objects.
pub open spec fn numbered(objects: Seq<(ObjectId, PdfObject)>, id: ObjectId) -> Option<PdfObject>
    decreases objects.len(),
{
    if objects.len() == 0 {
        None
    } else if objects[0].0 == id {
        Some(objects[0].1)
    } else {
        numbered(objects.drop_first(), id)
    }
}

/// An object, or what it refers to: at most `limit` references are followed.
pub open spec fn followed(document: PdfDocument, object: PdfObject, limit: nat) -> Option<PdfObject>
    decreases limit,
{
    match object {
        PdfObject::Reference(id) => match numbered(document.objects@, id) {
            Some(next) if limit > 0 => followed(document, next, (limit - 1) as nat),
            _ => None,
        },
        _ => Some(object),
    }
}

/// The object with a number in a document; where that is a reference, what it refers to, after
/// at most 128 more.
pub open spec fn fetched(document: PdfDocument, id: ObjectId) -> Option<PdfObject> {
    match numbered(document.objects@, id) {
        Some(object) => followed(document, object, 128),
        None => None,
    }
}

/// An object that is no reference: the given one, or what it refers to.
pub open spec fn resolved(document: PdfDocument, object: PdfObject) -> Option<PdfObject> {
    match object {
        PdfObject::Reference(id) => fetched(document, id),
        _ => Some(object),
    }
}

/// The dictionary that an object is or refers to.
pub open spec fn resolved_dictionary(document: PdfDocument, object: PdfObject) -> Option<PdfDictionary> {
    match resolved(document, object) {
        Some(PdfObject::Dictionary(dict)) => Some(dict),
        _ => None,
    }
}

/// What is wrong with a document.
#[derive(Debug, Clone, Copy, PartialEq, Eq, Structural)]
pub enum PdfError {
    /// A reference leads to no object, or through too many others.
    Unresolved,
    /// An object is no dictionary where one is due.
    NotADictionary,
}

impl PdfDocument {
    /// The object with a number, not followed.
    fn find(&self, id: ObjectId) -> (r: Option<&PdfObject>)
        ensures
            r is Some <==> numbered(self.objects@, id) is Some,
            r matches Some(object) ==> numbered(self.objects@, id) == Some(*object),
    {
        let ghost all = self.objects@;
        assert(all.subrange(0, all.len() as int) =~= all);
        for i in 0..self.objects.len()
            invariant
                all == self.objects@,
                numbered(all, id) == numbered(all.subrange(i as int, all.len() as int), id),
        {
            assert(all.subrange(i as int, all.len() as int).drop_first() =~= all.subrange(i + 1, all.len() as int));
            if self.objects[i].0.0 == id.0 && self.objects[i].0.1 == id.1 {
                return Some(&self.objects[i].1);
            }
        }
        None
    }

    /// The object with a number, followed where it is a reference.
    pub fn get_object(&self, id: ObjectId) -> (r: Result<&PdfObject, PdfError>)
        ensures
            r is Ok <==> fetched(*self, id) is Some,
            r matches Ok(object) ==> fetched(*self, id) == Some(*object),
            r matches Err(e) ==> e == PdfError::Unresolved,
    {
        match self.find(id) {
            None => Err(PdfError::Unresolved),
            Some(first) => {
                let mut object: &PdfObject = first;
                let mut limit: u32 = 128;
                loop
                    invariant
                        fetched(*self, id) == followed(*self, *object, limit as nat),
                    decreases limit,
                {
                    match object {
                        PdfObject::Reference(next) => match self.find(*next) {
                            Some(target) => {
                                if limit == 0 {
                                    return Err(PdfError::Unresolved);
                                }
                                object = target;
                                limit = limit - 1;
                            },
                            None => {
                                return Err(PdfError::Unresolved);
                            },
                        },
                        _ => {
                            return Ok(object);
                        },
                    }
                }
            },
        }
    }
}

/// An object that is no reference: the given one, or what it refers to.
pub fn resolve_object<'a>(document: &'a PdfDocument, object: &'a PdfObject) -> (r: Result<&'a PdfObject, PdfError>)
    ensures
        r is Ok <==> resolved(*document, *object) is Some,
        r matches Ok(found) ==> resolved(*document, *object) == Some(*found),
        r matches Err(e) ==> e == PdfError::Unresolved,
{
    match object {
        PdfObject::Reference(id) => document.get_object(*id),
        _ => Ok(object),
    }
}

/// The dictionary that an object is or refers to.
pub fn resolve_dictionary<'a>(document: &'a PdfDocument, object: &'a PdfObject) -> (r: Result<
    &'a PdfDictionary,
    PdfError,
>)
    ensures
        r is Ok <==> resolved_dictionary(*document, *object) is Some,
        r matches Ok(found) ==> resolved_dictionary(*document, *object) == Some(*found),
        r matches Err(e) ==> (e == PdfError::Unresolved <==> resolved(*document, *object) is None),
{
    match resolve_object(document, object) {
        Ok(PdfObject::Dictionary(dict)) => Ok(dict),
        Ok(_) => Err(PdfError::NotADictionary),
        Err(e) => Err(e),
    }
}

/// What a followed object is is no reference itself.
pub proof fn law_resolved(document: PdfDocument, object: PdfObject)
    ensures
        resolved(document, object) matches Some(found) ==> !(found is Reference),
{
    if let PdfObject::Reference(id) = object {
        if let Some(first) = numbered(document.objects@, id) {
            lemma_followed(document, first, 128);
        }
    }
}

proof fn lemma_followed(document: PdfDocument, object: PdfObject, limit: nat)
    ensures
        followed(document, object, limit) matches Some(found) ==> !(found is Reference),
    decreases limit,
{
    if let PdfObject::Reference(id) = object {
        if let Some(next) = numbered(document.objects@, id) {
            if limit > 0 {
                lemma_followed(document, next, (limit - 1) as nat);
            }
        }
    }
}

/// A key stands for what the first entry with its bytes says, and for nothing where no entry has
/// them.
pub proof fn law_lookup(dict: PdfDictionary, k: Seq<char>)
    ensures
        lookup(dict, k) is None <==> forall|i: int|
            0 <= i < dict.entries@.len() ==> (#[trigger] dict.entries@[i]).0@ != encode_utf8(k),
        lookup(dict, k) matches Some(object) ==> exists|i: int|
            0 <= i < dict.entries@.len() && (#[trigger] dict.entries@[i]).0@ == encode_utf8(k) && dict.entries@[i].1
                == object && forall|j: int| 0 <= j < i ==> (#[trigger] dict.entries@[j]).0@ != encode_utf8(k),
{
    lemma_entry(dict.entries@, key(k));
}

proof fn lemma_entry(entries: Seq<(Vec<u8>, PdfObject)>, k: Seq<u8>)
    ensures
        entry(entries, k) is None <==> forall|i: int| 0 <= i < entries.len() ==> (#[trigger] entries[i]).0@ != k,
        entry(entries, k) matches Some(object) ==> exists|i: int|
            0 <= i < entries.len() && (#[trigger] entries[i]).0@ == k && entries[i].1 == object && forall|j: int|
                0 <= j < i ==> (#[trigger] entries[j]).0@ != k,
    decreases entries.len(),
{
    if entries.len() > 0 && entries[0].0@ != k {
        let rest = entries.drop_first();
        lemma_entry(rest, k);
        if let Some(object) = entry(rest, k) {
            let i = choose|i: int|
                0 <= i < rest.len() && (#[trigger] rest[i]).0@ == k && rest[i].1 == object && forall|j: int|
                    0 <= j < i ==> (#[trigger] rest[j]).0@ != k;
            assert(entries[i + 1] == rest[i]);
            assert forall|j: int| 0 <= j < i + 1 implies (#[trigger] entries[j]).0@ != k by {
                if j > 0 {
                    assert(rest[j - 1] == entries[j]);
                }
            }
        } else {
            assert forall|i: int| 0 <= i < entries.len() implies (#[trigger] entries[i]).0@ != k by {
                if i > 0 {
                    assert(rest[i - 1] == entries[i]);
                }
            }
        }
        if forall|i: int| 0 <= i < entries.len() ==> (#[trigger] entries[i]).0@ != k {
            assert forall|i: int| 0 <= i < rest.len() implies (#[trigger] rest[i]).0@ != k by {
                assert(entries[i + 1] == rest[i]);
            }
        }
    }
}

/// The object with a number is the first that has it, and there is none where no object has it.
pub proof fn law_numbered(objects: Seq<(ObjectId, PdfObject)>, id: ObjectId)
    ensures
        numbered(objects, id) is None <==> forall|i: int| 0 <= i < objects.len() ==> (#[trigger] objects[i]).0 != id,
        numbered(objects, id) matches Some(object) ==> exists|i: int|
            0 <= i < objects.len() && (#[trigger] objects[i]).0 == id && objects[i].1 == object && forall|j: int|
                0 <= j < i ==> (#[trigger] objects[j]).0 != id,
    decreases objects.len(),
{
    if objects.len() > 0 && objects[0].0 != id {
        let rest = objects.drop_first();
        law_numbered(rest, id);
        if let Some(object) = numbered(rest, id) {
            let i = choose|i: int|
                0 <= i < rest.len() && (#[trigger] rest[i]).0 == id && rest[i].1 == object && forall|j: int|
                    0 <= j < i ==> (#[trigger] rest[j]).0 != id;
            assert(objects[i + 1] == rest[i]);
            assert forall|j: int| 0 <= j < i + 1 implies (#[trigger] objects[j]).0 != id by {
                if j > 0 {
                    assert(rest[j - 1] == objects[j]);
                }
            }
        } else {
            assert forall|i: int| 0 <= i < objects.len() implies (#[trigger] objects[i]).0 != id by {
                if i > 0 {
                    assert(rest[i - 1] == objects[i]);
                }
            }
        }
        if forall|i: int| 0 <= i < objects.len() ==> (#[trigger] objects[i]).0 != id {
            assert forall|i: int| 0 <= i < rest.len() implies (#[trigger] rest[i]).0 != id by {
                assert(objects[i + 1] == rest[i]);
            }
        }
    }
}

/// References lead to what stands at their end: where each of some objects refers to the next,
/// and the last is no reference, fetching the first gives the last, over up to 128 references.
pub proof fn law_reference_chain(document: PdfDocument, ids: Seq<ObjectId>, target: PdfObject)
    requires
        ids.len() > 0,
        forall|i: int|
            0 <= i < ids.len() - 1 ==> numbered(document.objects@, #[trigger] ids[i]) == Some(
                PdfObject::Reference(ids[i + 1]),
            ),
        numbered(document.objects@, ids.last()) == Some(target),
        !(target is Reference),
    ensures
        ids.len() <= 129 ==> fetched(document, ids[0]) == Some(target) && resolved(
            document,
            PdfObject::Reference(ids[0]),
        ) == Some(target),
        ids.len() > 129 ==> fetched(document, ids[0]) is None,
        resolved(document, target) == Some(target),
{
    lemma_chain(document, ids, target, 128);
}

proof fn lemma_chain(document: PdfDocument, ids: Seq<ObjectId>, target: PdfObject, limit: nat)
    requires
        ids.len() > 0,
        forall|i: int|
            0 <= i < ids.len() - 1 ==> numbered(document.objects@, #[trigger] ids[i]) == Some(
                PdfObject::Reference(ids[i + 1]),
            ),
        numbered(document.objects@, ids.last()) == Some(target),
        !(target is Reference),
    ensures
        ({
            let first = numbered(document.objects@, ids[0])->0;
            &&& ids.len() <= limit + 1 ==> followed(document, first, limit) == Some(target)
            &&& ids.len() > limit + 1 ==> followed(document, first, limit) is None
        }),
    decreases ids.len(),
{
    if ids.len() > 1 && limit > 0 {
        let rest = ids.drop_first();
        assert(rest[0] == ids[1]);
        assert forall|i: int| 0 <= i < rest.len() - 1 implies numbered(document.objects@, #[trigger] rest[i]) == Some(
            PdfObject::Reference(rest[i + 1]),
        ) by {
            assert(rest[i] == ids[i + 1]);
            assert(rest[i + 1] == ids[i + 2]);
        }
        assert(rest.last() == ids.last());
        assert(numbered(document.objects@, ids[0]) == Some(PdfObject::Reference(ids[1])));
        assert(numbered(document.objects@, ids[1]) is Some) by {
            if ids.len() > 2 {
                assert(numbered(document.objects@, ids[1]) == Some(PdfObject::Reference(ids[2])));
            } else {
                assert(ids[1] == ids.last());
            }
        }
        lemma_chain(document, rest, target, (limit - 1) as nat);
    } else if ids.len() > 1 {
        assert(numbered(document.objects@, ids[0]) == Some(PdfObject::Reference(ids[1])));
    }
}

/// A reference to an object that the document lacks leads nowhere.
pub proof fn law_missing(document: PdfDocument, id: ObjectId)
    requires
        forall|i: int| 0 <= i < document.objects@.len() ==> (#[trigger] document.objects@[i]).0 != id,
    ensures
        fetched(document, id) is None,
        resolved(document, PdfObject::Reference(id)) is None,
        resolved_dictionary(document, PdfObject::Reference(id)) is None,
{
    law_numbered(document.objects@, id);
}

/// A dictionary is found just where an object is one, or refers to one.
pub proof fn law_resolved_dictionary(document: PdfDocument, object: PdfObject, dict: PdfDictionary)
    ensures
        resolved_dictionary(document, object) == Some(dict) <==> resolved(document, object) == Some(
            PdfObject::Dictionary(dict),
        ),
        resolved_dictionary(document, PdfObject::Dictionary(dict)) == Some(dict),
{
}

} // verus!
