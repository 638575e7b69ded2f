//! The field selection: which mapping keys the selective encryption policy
//! encrypts.  A selection is an ordered list of names used only for
//! membership tests; a configuration document replaces it wholesale.  The
//! caller owns the sharing discipline (a read/write lock around one value);
//! every library operation takes the selection by reference and never sees a
//! partial update.

use crate::doc::{lookup, DocV, Document};
use vstd::prelude::*;

verus! {

/// Why a configuration document was rejected.
#[derive(Debug, PartialEq, Eq)]
pub enum ConfigError {
    /// The document is not a mapping binding `fieldsToEncrypt`.
    MissingField,
    /// The bound value is not a sequence of strings.
    WrongType,
}

/// The set of field names selected for encryption.
pub struct FieldSelector {
    fields: Vec<String>,
}

impl View for FieldSelector {
    type V = Seq<Seq<char>>;

    closed spec fn view(&self) -> Seq<Seq<char>> {
        Seq::new(self.fields@.len(), |i: int| self.fields@[i]@)
    }
}

impl FieldSelector {
    /// The empty selection every process starts with.
    pub fn new() -> (r: FieldSelector)
        ensures
            r@ == Seq::<Seq<char>>::empty(),
    {
        let r = FieldSelector { fields: Vec::new() };
        proof {
            assert(r@ =~= Seq::<Seq<char>>::empty());
        }
        r
    }

    /// A selection holding exactly the given names, in order.
    pub fn from_fields(fields: Vec<String>) -> (r: FieldSelector)
        ensures
            r@.len() == fields@.len(),
            forall|i: int| 0 <= i < fields@.len() ==> r@[i] == fields@[i]@,
    {
        FieldSelector { fields }
    }

    /// Replaces the whole selection; the previous one is discarded.
    pub fn replace(&mut self, fields: Vec<String>)
        ensures
            final(self)@.len() == fields@.len(),
            forall|i: int| 0 <= i < fields@.len() ==> final(self)@[i] == fields@[i]@,
    {
        self.fields = fields;
    }

    /// Whether `name` is one of the selected field names.
    pub fn selects(&self, name: &String) -> (r: bool)
        ensures
            r == self@.contains(name@),
    {
        let n = self.fields.len();
        let mut i: usize = 0;
        while i < n
            invariant
                n == self.fields@.len(),
                i <= n,
                forall|j: int| 0 <= j < i ==> self@[j] != name@,
            decreases n - i,
        {
            if self.fields[i].eq(name) {
                proof {
                    assert(self@[i as int] == name@);
                }
                return true;
            }
            i = i + 1;
        }
        proof {
            if self@.contains(name@) {
                let j = choose|j: int| 0 <= j < self@.len() && self@[j] == name@;
                assert(false);
            }
        }
        false
    }
}

/// Reads a configuration document of shape
/// `{"fieldsToEncrypt": [name, ...]}` and returns the listed names.
///
/// Fails with `MissingField` where the document is not a mapping binding
/// `fieldsToEncrypt`, and with `WrongType` where the bound value is not a
/// sequence or holds a non-string element.
#[verifier::loop_isolation(false)]
pub fn get_config(payload: &Document) -> (r: Result<Vec<String>, ConfigError>)
    ensures
        match r {
            Ok(fields) => {
                &&& payload@ matches DocV::Object(es)
                &&& lookup(es, "fieldsToEncrypt"@) matches Some(v)
                &&& v matches DocV::Array(items)
                &&& items.len() == fields@.len()
                &&& forall|i: int|
                    0 <= i < items.len() ==> (#[trigger] items[i] matches DocV::Text(t)
                        && fields@[i]@ == t)
            },
            Err(e) => match e {
                ConfigError::MissingField => !(payload@ matches DocV::Object(es) && lookup(
                    es,
                    "fieldsToEncrypt"@,
                ) is Some),
                ConfigError::WrongType => {
                    &&& payload@ matches DocV::Object(es)
                    &&& lookup(es, "fieldsToEncrypt"@) matches Some(v)
                    &&& !(v matches DocV::Array(items) && forall|i: int|
                        0 <= i < items.len() ==> #[trigger] items[i] is Text)
                },
            },
        },
{
    match payload.get_field("fieldsToEncrypt") {
        Option::None => Err(ConfigError::MissingField),
        Option::Some(value) => {
            match value {
                Document::Array(items) => {
                    let n = items.len();
                    let mut fields: Vec<String> = Vec::new();
                    let mut i: usize = 0;
                    while i < n
                        invariant
                            n == items@.len(),
                            value@ matches DocV::Array(itemsv) && itemsv
                                == crate::doc::view_list(items@),
                            fields@.len() == i,
                            i <= n,
                            forall|i2: int|
                                0 <= i2 < i ==> (#[trigger] crate::doc::view_list(
                                    items@,
                                )[i2] matches DocV::Text(t) && fields@[i2]@ == t),
                        decreases n - i,
                    {
                        proof {
                            crate::doc::lemma_view_list_index(items@);
                        }
                        match &items[i] {
                            Document::Text(t) => {
                                fields.push(t.clone());
                            },
                            _ => {
                                proof {
                                    crate::doc::lemma_view_list_index(items@);
                                    assert(crate::doc::view_list(items@)[i as int] !is Text);
                                }
                                return Err(ConfigError::WrongType);
                            },
                        }
                        i = i + 1;
                    }
                    proof {
                        crate::doc::lemma_view_list_index(items@);
                    }
                    Ok(fields)
                },
                _ => Err(ConfigError::WrongType),
            }
        },
    }
}

} // verus!
