//! The target document schema as the builder reads it: an ordered list of
//! field declarations, each a name with a declared value type.

use vstd::prelude::*;

use crate::value::str_eq;

verus! {

/// The declared type of a schema field.
#[derive(Clone, Copy, Debug, PartialEq, Eq, Structural)]
pub enum FieldKind {
    Uint,
    Int,
    Text,
}

/// The model of a schema: declaration order is kept, names are unique.
pub type SchemaV = Seq<(Seq<char>, FieldKind)>;

pub open spec fn sch_has(s: SchemaV, name: Seq<char>) -> bool {
    exists|i: int| 0 <= i < s.len() && s[i].0 == name
}

pub open spec fn sch_at(s: SchemaV, name: Seq<char>) -> int {
    choose|i: int| 0 <= i < s.len() && s[i].0 == name
}

/// The declared kind of a named field, where it exists.
pub open spec fn sch_kind(s: SchemaV, name: Seq<char>) -> FieldKind {
    s[sch_at(s, name)].1
}

pub open spec fn sch_wf(s: SchemaV) -> bool {
    forall|i: int, j: int| 0 <= i < j < s.len() ==> s[i].0 != s[j].0
}

/// A document schema: field names resolved by the builder and the search
/// path, each name declared at most once.
#[derive(Debug, PartialEq)]
pub struct Schema {
    fields: Vec<(String, FieldKind)>,
}

impl Schema {
    /// The model of the schema.
    pub closed spec fn dv(self) -> SchemaV {
        self.fields@.map_values(|p: (String, FieldKind)| (p.0@, p.1))
    }

    pub open spec fn wf(self) -> bool {
        sch_wf(self.dv())
    }

    pub fn new() -> (r: Schema)
        ensures
            r.dv() == Seq::<(Seq<char>, FieldKind)>::empty(),
            r.wf(),
    {
        let r = Schema { fields: Vec::new() };
        proof {
            assert(r.dv() =~= Seq::<(Seq<char>, FieldKind)>::empty());
        }
        r
    }

    /// Declare a field. A name already declared is left as it was and the
    /// call reports it.
    pub fn add_field(&mut self, name: String, kind: FieldKind) -> (added: bool)
        requires
            old(self).wf(),
        ensures
            final(self).wf(),
            added == !sch_has(old(self).dv(), name@),
            added ==> final(self).dv() == old(self).dv().push((name@, kind)),
            !added ==> final(self).dv() == old(self).dv(),
    {
        match self.position_of(name.as_str()) {
            Some(_) => false,
            None => {
                self.fields.push((name, kind));
                proof {
                    assert(final(self).dv() =~= old(self).dv().push((name@, kind)));
                    assert forall|i: int, j: int|
                        0 <= i < j < final(self).dv().len() implies final(self).dv()[i].0
                        != final(self).dv()[j].0 by {
                        if j == final(self).dv().len() - 1 {
                            if old(self).dv()[i].0 == name@ {
                                assert(sch_has(old(self).dv(), name@));
                            }
                        }
                    }
                }
                true
            },
        }
    }

    /// The position of a field name, if it is declared.
    pub fn position_of(&self, name: &str) -> (r: Option<usize>)
        ensures
            match r {
                Some(i) => i < self.dv().len() && self.dv()[i as int].0 == name@
                    && sch_has(self.dv(), name@),
                None => !sch_has(self.dv(), name@),
            },
    {
        let n = self.fields.len();
        let mut i: usize = 0;
        while i < n
            invariant
                n == self.fields@.len(),
                n == self.dv().len(),
                i <= n,
                forall|j: int| 0 <= j < i ==> self.dv()[j].0 != name@,
                forall|j: int|
                    0 <= j < n ==> self.dv()[j] == (self.fields@[j].0@, self.fields@[j].1),
            decreases n - i,
        {
            if str_eq(self.fields[i].0.as_str(), name) {
                return Some(i);
            }
            i = i + 1;
        }
        None
    }

    /// The declared kind of the field at a position.
    pub fn kind_at(&self, i: usize) -> (k: FieldKind)
        requires
            i < self.dv().len(),
        ensures
            k == self.dv()[i as int].1,
    {
        self.fields[i].1
    }

    /// The declared kind of a named field, where the name is declared.
    pub fn lookup(&self, name: &str) -> (r: Option<FieldKind>)
        requires
            self.wf(),
        ensures
            match r {
                Some(k) => sch_has(self.dv(), name@) && k == sch_kind(self.dv(), name@),
                None => !sch_has(self.dv(), name@),
            },
    {
        match self.position_of(name) {
            Some(i) => {
                proof {
                    let at = sch_at(self.dv(), name@);
                    assert(self.dv()[at].0 == name@);
                    assert(at == i as int);
                }
                Some(self.kind_at(i))
            },
            None => None,
        }
    }

    /// How many fields are declared.
    pub fn len(&self) -> (n: usize)
        ensures
            n == self.dv().len(),
    {
        self.fields.len()
    }

    /// The name of the field at a position.
    pub fn name_at(&self, i: usize) -> (r: &String)
        requires
            i < self.dv().len(),
        ensures
            r@ == self.dv()[i as int].0,
    {
        &self.fields[i].0
    }

    /// Whether every declared name is unique. Construction through
    /// `add_field` keeps this true; a caller outside the verified world
    /// can test it instead of assuming it.
    pub fn is_wf(&self) -> (r: bool)
        ensures
            r == self.wf(),
    {
        let n = self.fields.len();
        let mut i: usize = 0;
        while i < n
            invariant
                n == self.dv().len(),
                n == self.fields@.len(),
                i <= n,
                forall|a: int, b: int| 0 <= a < b < self.dv().len() && a < i ==> self.dv()[a].0
                    != self.dv()[b].0,
                forall|j: int|
                    0 <= j < n ==> self.dv()[j] == (self.fields@[j].0@, self.fields@[j].1),
            decreases n - i,
        {
            let mut j: usize = i + 1;
            while j < n
                invariant
                    n == self.dv().len(),
                    n == self.fields@.len(),
                    i < j,
                    i < n,
                    j <= n,
                    forall|b: int| i < b < j ==> self.dv()[i as int].0 != self.dv()[b].0,
                    forall|j2: int|
                        0 <= j2 < n ==> self.dv()[j2] == (self.fields@[j2].0@, self.fields@[j2].1),
                decreases n - j,
            {
                if str_eq(self.fields[i].0.as_str(), self.fields[j].0.as_str()) {
                    proof {
                        assert(self.dv()[i as int].0 == self.dv()[j as int].0);
                        assert(!sch_wf(self.dv()));
                    }
                    return false;
                }
                j = j + 1;
            }
            i = i + 1;
        }
        true
    }
}

/// The schema positions of a list of field names, in order, names that
/// the schema does not declare silently dropped.
pub open spec fn resolve_model(s: SchemaV, names: Seq<Seq<char>>) -> Seq<int>
    decreases names.len(),
{
    if names.len() == 0 {
        Seq::empty()
    } else {
        resolve_model(s, names.drop_last()) + (if sch_has(s, names.last()) {
            seq![sch_at(s, names.last())]
        } else {
            Seq::empty()
        })
    }
}

/// The view of one field name.
pub open spec fn name_v_fn() -> spec_fn(String) -> Seq<char> {
    |n: String| n@
}

impl Schema {
    /// Resolve query field names against the schema: the position of each
    /// declared name, in the order given; unknown names are silently
    /// dropped, never an error.
    pub fn resolve_fields(&self, names: &Vec<String>) -> (r: Vec<usize>)
        requires
            self.wf(),
        ensures
            r@.map_values(|u: usize| u as int) == resolve_model(
                self.dv(),
                names@.map_values(name_v_fn()),
            ),
    {
        let ghost sv = self.dv();
        let ghost nv = names@.map_values(name_v_fn());
        let n = names.len();
        let mut out: Vec<usize> = Vec::new();
        let mut i: usize = 0;
        proof {
            assert(nv.take(0) =~= Seq::<Seq<char>>::empty());
            assert(out@.map_values(|u: usize| u as int) =~= Seq::<int>::empty());
        }
        while i < n
            invariant
                n == names@.len(),
                n == nv.len(),
                nv == names@.map_values(name_v_fn()),
                sv == self.dv(),
                sch_wf(sv),
                i <= n,
                out@.map_values(|u: usize| u as int) == resolve_model(sv, nv.take(i as int)),
            decreases n - i,
        {
            proof {
                assert(nv.take(i + 1).drop_last() =~= nv.take(i as int));
                assert(nv.take(i + 1).last() == nv[i as int]);
                assert(nv[i as int] == names@[i as int]@);
            }
            let ghost out0 = out@;
            match self.position_of(names[i].as_str()) {
                Some(pos) => {
                    out.push(pos);
                    proof {
                        let at = sch_at(sv, nv[i as int]);
                        assert(sv[at].0 == nv[i as int]);
                        assert(at == pos as int);
                        assert(out@.map_values(|u: usize| u as int) =~= out0.map_values(
                            |u: usize| u as int,
                        ) + seq![pos as int]);
                    }
                },
                None => {
                    proof {
                        assert(out@.map_values(|u: usize| u as int) =~= out0.map_values(
                            |u: usize| u as int,
                        ) + Seq::<int>::empty());
                    }
                },
            }
            i = i + 1;
        }
        proof {
            assert(nv.take(n as int) =~= nv);
        }
        out
    }
}

} // verus!
