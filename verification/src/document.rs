//! Typed documents: the schema-conformant records handed to the writer.

use vstd::prelude::*;

verus! {

/// One schema-typed field value.
#[derive(Debug, PartialEq)]
pub enum TypedValue {
    U64(u64),
    I64(i64),
    Text(String),
}

/// The model of a typed field value.
pub enum TypedValueV {
    U64(u64),
    I64(i64),
    Text(Seq<char>),
}

impl TypedValue {
    pub open spec fn dv(self) -> TypedValueV {
        match self {
            TypedValue::U64(u) => TypedValueV::U64(u),
            TypedValue::I64(i) => TypedValueV::I64(i),
            TypedValue::Text(s) => TypedValueV::Text(s@),
        }
    }
}

/// The model of a document: field values in insertion order. A name may
/// repeat: an array value expands into one entry per element.
pub type DocV = Seq<(Seq<char>, TypedValueV)>;

/// The predicate that keeps the entries carrying a given field name.
pub open spec fn doc_named_pred(name: Seq<char>) -> spec_fn((Seq<char>, TypedValueV)) -> bool {
    |p: (Seq<char>, TypedValueV)| p.0 == name
}

/// The entries of a document that carry a given field name.
pub open spec fn doc_values_named(d: DocV, name: Seq<char>) -> Seq<TypedValueV> {
    d.filter(doc_named_pred(name)).map_values(|p: (Seq<char>, TypedValueV)| p.1)
}

/// The resolvable identifier of a document: the value of its "id" field,
/// defined exactly when that field holds a single unsigned value.
pub open spec fn doc_id(d: DocV) -> Option<u64> {
    let ids = doc_values_named(d, "id"@);
    if ids.len() == 1 && ids[0] is U64 {
        Some(ids[0]->U64_0)
    } else {
        None
    }
}

/// A typed, schema-conformant record ready for insertion into the index.
#[derive(Debug, PartialEq)]
pub struct Document {
    vals: Vec<(String, TypedValue)>,
}

impl Document {
    /// The model of the document.
    pub closed spec fn dv(self) -> DocV {
        self.vals@.map_values(|p: (String, TypedValue)| (p.0@, p.1.dv()))
    }

    pub fn new() -> (r: Document)
        ensures
            r.dv() == Seq::<(Seq<char>, TypedValueV)>::empty(),
    {
        let r = Document { vals: Vec::new() };
        proof {
            assert(r.dv() =~= Seq::<(Seq<char>, TypedValueV)>::empty());
        }
        r
    }

    /// Append one field value.
    pub fn add(&mut self, name: String, value: TypedValue)
        ensures
            final(self).dv() == old(self).dv().push((name@, value.dv())),
    {
        self.vals.push((name, value));
        proof {
            assert(final(self).dv() =~= old(self).dv().push((name@, value.dv())));
        }
    }

    pub fn len(&self) -> (n: usize)
        ensures
            n == self.dv().len(),
    {
        self.vals.len()
    }

    /// The name and value at a position.
    pub fn entry_at(&self, i: usize) -> (r: &(String, TypedValue))
        requires
            i < self.dv().len(),
        ensures
            (r.0@, r.1.dv()) == self.dv()[i as int],
    {
        &self.vals[i]
    }

    /// The document's resolvable identifier: the single unsigned value of
    /// its "id" field, if the document carries exactly that.
    pub fn id_value(&self) -> (r: Option<u64>)
        ensures
            r == doc_id(self.dv()),
    {
        let n = self.vals.len();
        let ghost d = self.dv();
        let ghost named = doc_named_pred("id"@);
        let mut found: Option<u64> = None;
        let mut count: usize = 0;
        let mut i: usize = 0;
        proof {
            assert(d.take(0) =~= Seq::<(Seq<char>, TypedValueV)>::empty());
            assert(d.take(0).filter(named) =~= Seq::<(Seq<char>, TypedValueV)>::empty());
        }
        while i < n
            invariant
                n == self.vals@.len(),
                n == d.len(),
                d == self.dv(),
                i <= n,
                count <= i,
                named == doc_named_pred("id"@),
                count == d.take(i as int).filter(named).len(),
                count > 0 ==> match found {
                    Some(u) => d.take(i as int).filter(named)[0].1 == TypedValueV::U64(u),
                    None => !(d.take(i as int).filter(named)[0].1 is U64),
                },
                count == 0 ==> found is None,
            decreases n - i,
        {
            let p = &self.vals[i];
            proof {
                assert(d[i as int] == (p.0@, p.1.dv()));
                assert(d.take(i + 1) =~= d.take(i as int).push(d[i as int]));
                d.take(i as int).lemma_filter_push(d[i as int], named);
            }
            if crate::value::str_eq(p.0.as_str(), "id") {
                if count == 0 {
                    match &p.1 {
                        TypedValue::U64(u) => {
                            found = Some(*u);
                        },
                        _ => {
                            found = None;
                        },
                    }
                }
                count = count + 1;
            }
            i = i + 1;
        }
        proof {
            assert(d.take(n as int) =~= d);
        }
        if count == 1 {
            proof {
                assert(doc_values_named(d, "id"@).len() == 1);
                assert(doc_values_named(d, "id"@)[0] == d.filter(named)[0].1);
            }
            found
        } else {
            None
        }
    }
}

/// A fresh document is empty.
impl Default for Document {
    fn default() -> (r: Document)
        ensures
            r.dv() == Seq::<(Seq<char>, TypedValueV)>::empty(),
    {
        Document::new()
    }
}

} // verus!
