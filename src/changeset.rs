use crate::keyhash::{key_hash, prefixed_hex};
use vstd::prelude::*;
use vstd::string::*;

verus! {

/// Length in bytes of an object identifier.
pub const OBJECT_ID_LENGTH: usize = 32;

/// Errors that abort the handling of one change set.
#[derive(Debug, Clone, Copy, PartialEq, Eq, Structural)]
pub enum IndexError {
    /// A key of the global namespace is not a well-formed object identifier.
    Decode,
    /// A value's payload could not be resolved to JSON.
    Resolution,
}

/// Identifier of an object, and of the table that such an object owns.
#[derive(Debug)]
pub struct ObjectId {
    pub bytes: Vec<u8>,
}

impl View for ObjectId {
    type V = Seq<u8>;

    open spec fn view(&self) -> Seq<u8> {
        self.bytes@
    }
}

/// The reserved handle of the global object namespace: all zero bytes.
pub open spec fn is_global_handle(h: Seq<u8>) -> bool {
    h.len() == OBJECT_ID_LENGTH && forall|i: int| 0 <= i < h.len() ==> h[i] == 0
}

impl ObjectId {
    /// Parses an identifier from exactly `OBJECT_ID_LENGTH` bytes.
    pub fn from_bytes(b: &Vec<u8>) -> (r: Result<ObjectId, IndexError>)
        ensures
            b@.len() == OBJECT_ID_LENGTH <==> r is Ok,
            r is Ok ==> r->Ok_0@ == b@,
            r is Err ==> r->Err_0 == IndexError::Decode,
    {
        if b.len() == OBJECT_ID_LENGTH {
            Ok(ObjectId { bytes: copy_bytes(b) })
        } else {
            Err(IndexError::Decode)
        }
    }

    /// The handle of the global object namespace.
    pub fn global() -> (r: ObjectId)
        ensures
            is_global_handle(r@),
    {
        let mut bytes: Vec<u8> = Vec::new();
        while bytes.len() < OBJECT_ID_LENGTH
            invariant
                bytes@.len() <= OBJECT_ID_LENGTH,
                forall|i: int| 0 <= i < bytes@.len() ==> bytes@[i] == 0,
            decreases OBJECT_ID_LENGTH - bytes@.len(),
        {
            bytes.push(0);
        }
        ObjectId { bytes }
    }

    pub fn is_global(&self) -> (r: bool)
        ensures
            r == is_global_handle(self@),
    {
        if self.bytes.len() != OBJECT_ID_LENGTH {
            return false;
        }
        let mut i: usize = 0;
        while i < self.bytes.len()
            invariant
                i <= self.bytes@.len(),
                forall|j: int| 0 <= j < i ==> self.bytes@[j] == 0,
            decreases self.bytes@.len() - i,
        {
            if self.bytes[i] != 0 {
                return false;
            }
            i = i + 1;
        }
        true
    }

    pub fn same_as(&self, other: &ObjectId) -> (r: bool)
        ensures
            r == (self@ == other@),
    {
        bytes_equal(&self.bytes, &other.bytes)
    }

    pub fn copied(&self) -> (r: ObjectId)
        ensures
            r@ == self@,
    {
        ObjectId { bytes: copy_bytes(&self.bytes) }
    }

    /// Canonical text of the identifier: `0x` and the lowercase hex of its bytes.
    pub fn to_string(&self) -> (r: String)
        ensures
            r@ == prefixed_hex(self@),
    {
        key_hash(&self.bytes)
    }
}

pub fn bytes_equal(a: &Vec<u8>, b: &Vec<u8>) -> (r: bool)
    ensures
        r == (a@ == b@),
{
    if a.len() != b.len() {
        return false;
    }
    let mut i: usize = 0;
    while i < a.len()
        invariant
            a@.len() == b@.len(),
            i <= a@.len(),
            forall|j: int| 0 <= j < i ==> a@[j] == b@[j],
        decreases a@.len() - i,
    {
        if a[i] != b[i] {
            return false;
        }
        i = i + 1;
    }
    assert(a@ =~= b@);
    true
}

pub fn copy_bytes(a: &Vec<u8>) -> (r: Vec<u8>)
    ensures
        r@ == a@,
{
    let mut r: Vec<u8> = Vec::new();
    let mut i: usize = 0;
    while i < a.len()
        invariant
            i <= a@.len(),
            r@ == a@.take(i as int),
        decreases a@.len() - i,
    {
        r.push(a[i]);
        i = i + 1;
        assert(r@ =~= a@.take(i as int));
    }
    assert(a@.take(i as int) =~= a@);
    r
}

/// A value as stored: its declared type and its binary payload.
///
/// `value_type` is the type's canonical text with framework addresses in
/// short form, e.g. `0x2::object::ObjectEntity<0x3::coin::Coin>`; see
/// [`classify`] for the texts that mark an object.
#[derive(Debug)]
pub struct Value {
    pub value_type: String,
    pub value: Vec<u8>,
}

/// One mutation of one key.
#[derive(Debug)]
pub enum Op {
    New(Value),
    Modify(Value),
    Delete,
}

/// One entry of a change set: the table it touches, the raw key, and the mutation.
#[derive(Debug)]
pub struct StateChange {
    pub handle: ObjectId,
    pub key: Vec<u8>,
    pub op: Op,
}

/// A table created by the change set, with the canonical form of its key type.
#[derive(Debug)]
pub struct NewTable {
    pub handle: ObjectId,
    pub key_type: String,
}

/// All state mutations of one transaction.
#[derive(Debug)]
pub struct StateChangeSet {
    pub changes: Vec<StateChange>,
    pub new_tables: Vec<NewTable>,
    pub removed_tables: Vec<ObjectId>,
}

/// The shape of a value, decided from its declared type alone.
#[derive(Debug, Clone, Copy, PartialEq, Eq, Structural)]
pub enum ValueKind {
    TableObject,
    RawObject,
    LeafValue,
}

/// Canonical type of an object that owns a table.
pub open spec fn table_object_type() -> Seq<char> {
    "0x2::object::ObjectEntity<0x2::raw_table::TableInfo>"@
}

/// Canonical prefix shared by the types of all objects.
pub open spec fn object_type_prefix() -> Seq<char> {
    "0x2::object::ObjectEntity<"@
}

pub open spec fn kind_of(t: Seq<char>) -> ValueKind {
    if t == table_object_type() {
        ValueKind::TableObject
    } else if t.len() >= object_type_prefix().len() && t.take(
        object_type_prefix().len() as int,
    ) == object_type_prefix() {
        ValueKind::RawObject
    } else {
        ValueKind::LeafValue
    }
}

/// Classifies a value by its declared type text: exactly
/// `0x2::object::ObjectEntity<0x2::raw_table::TableInfo>` is a table object;
/// any other text that starts with `0x2::object::ObjectEntity<` is a raw
/// object; everything else, including a type written with the framework
/// address in full 64-digit form, is a leaf value.
pub fn classify(value_type: &String) -> (r: ValueKind)
    ensures
        r == kind_of(value_type@),
{
    let table_type = String::from_str("0x2::object::ObjectEntity<0x2::raw_table::TableInfo>");
    let prefix = String::from_str("0x2::object::ObjectEntity<");
    proof {
        reveal_strlit("0x2::object::ObjectEntity<0x2::raw_table::TableInfo>");
        reveal_strlit("0x2::object::ObjectEntity<");
    }
    if *value_type == table_type {
        return ValueKind::TableObject;
    }
    let n = value_type.as_str().unicode_len();
    let p = prefix.as_str().unicode_len();
    if n >= p {
        let head = String::from_str(value_type.as_str().substring_char(0, p));
        if head == prefix {
            return ValueKind::RawObject;
        }
    }
    ValueKind::LeafValue
}

} // verus!
