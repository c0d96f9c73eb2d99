use crate::store::texts;
use vstd::prelude::*;
use vstd::string::*;

verus! {

/// Accounts and password state shared by every kind of keystore.
#[derive(Debug)]
pub struct BaseKeystore {
    pub addresses: Vec<String>,
    pub password_hash: String,
    pub is_password_empty: bool,
}

/// A keystore kept in a file at `path`.
#[derive(Debug)]
pub struct FileBasedKeystore {
    pub keystore: BaseKeystore,
    pub path: String,
}

/// A keystore that lives in memory only.
#[derive(Debug)]
pub struct InMemKeystore {
    pub keystore: BaseKeystore,
}

/// A keystore of either kind; every operation goes to the inner store.
#[derive(Debug)]
pub enum Keystore {
    File(FileBasedKeystore),
    InMem(InMemKeystore),
}

/// What `{:?}` makes of a string: the text quoted and escaped.
pub uninterp spec fn debug_of(s: Seq<char>) -> Seq<char>;

/// Relies on the `Debug` impl of `str` (through `format!`): the quoted and
/// escaped text depends on the characters alone.
#[verifier::external_body]
fn debug_text(s: &String) -> (r: String)
    ensures
        r@ == debug_of(s@),
{
    format!("{:?}", s)
}

fn copy_strings(v: &Vec<String>) -> (r: Vec<String>)
    ensures
        texts(r@) == texts(v@),
{
    let mut r: Vec<String> = Vec::new();
    let mut i: usize = 0;
    while i < v.len()
        invariant
            i <= v@.len(),
            r@.len() == i,
            forall|j: int| 0 <= j < i ==> #[trigger] r@[j]@ == v@[j]@,
        decreases v@.len() - i,
    {
        r.push(v[i].clone());
        i = i + 1;
    }
    assert(texts(r@) =~= texts(v@));
    r
}

impl Keystore {
    pub open spec fn base(&self) -> BaseKeystore {
        match self {
            Keystore::File(f) => f.keystore,
            Keystore::InMem(m) => m.keystore,
        }
    }

    /// The text shown for a keystore: its kind, and for a file keystore its path.
    pub open spec fn describe_spec(&self) -> Seq<char> {
        match self {
            Keystore::File(f) => "Keystore Type : Rooch File\nKeystore Path : "@ + debug_of(
                f.path@,
            ),
            Keystore::InMem(_) => "Keystore Type : Rooch InMem\n"@,
        }
    }

    pub fn addresses(&self) -> (r: Vec<String>)
        ensures
            texts(r@) == texts(self.base().addresses@),
    {
        match self {
            Keystore::File(f) => copy_strings(&f.keystore.addresses),
            Keystore::InMem(m) => copy_strings(&m.keystore.addresses),
        }
    }

    pub fn get_password_hash(&self) -> (r: String)
        ensures
            r@ == self.base().password_hash@,
    {
        match self {
            Keystore::File(f) => f.keystore.password_hash.clone(),
            Keystore::InMem(m) => m.keystore.password_hash.clone(),
        }
    }

    pub fn get_if_password_is_empty(&self) -> (r: bool)
        ensures
            r == self.base().is_password_empty,
    {
        match self {
            Keystore::File(f) => f.keystore.is_password_empty,
            Keystore::InMem(m) => m.keystore.is_password_empty,
        }
    }

    /// Records the password hash and whether the password is empty; the kind
    /// of keystore, its path and its addresses stay as they were.
    pub fn set_password_hash_with_indicator(&mut self, password_hash: String, is_password_empty: bool)
        ensures
            final(self).base().password_hash@ == password_hash@,
            final(self).base().is_password_empty == is_password_empty,
            final(self).base().addresses == old(self).base().addresses,
            *final(self) is File <==> *old(self) is File,
            *final(self) is File ==> final(self)->File_0.path == old(self)->File_0.path,
    {
        match self {
            Keystore::File(f) => {
                f.keystore.password_hash = password_hash;
                f.keystore.is_password_empty = is_password_empty;
            },
            Keystore::InMem(m) => {
                m.keystore.password_hash = password_hash;
                m.keystore.is_password_empty = is_password_empty;
            },
        }
    }

    /// Human-readable description of the keystore.
    pub fn describe(&self) -> (r: String)
        ensures
            r@ == self.describe_spec(),
    {
        match self {
            Keystore::File(f) => {
                let mut s = String::from_str("Keystore Type : Rooch File\nKeystore Path : ");
                let p = debug_text(&f.path);
                s.append(p.as_str());
                s
            },
            Keystore::InMem(_) => String::from_str("Keystore Type : Rooch InMem\n"),
        }
    }
}

} // verus!
