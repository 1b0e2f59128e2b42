//! The canonical field-value representation that normalized records use:
//! a closed, JSON-like tagged value, together with its mathematical model.

use vstd::prelude::*;

verus! {

/// A numeric field value. Integer values that fit a machine word are kept
/// exactly; any other numeric value is kept as its canonical decimal text.
#[derive(Clone, Debug, PartialEq)]
pub enum JsonNumber {
    Unsigned(u64),
    Signed(i64),
    Decimal(String),
}

/// A JSON-like value: the common denominator of the accepted input formats.
#[derive(Debug, PartialEq)]
pub enum JsonValue {
    Null,
    Bool(bool),
    Num(JsonNumber),
    Str(String),
    Arr(Vec<JsonValue>),
    Obj(Vec<JsonField>),
}

/// One named field of a record or of a nested object.
#[derive(Debug, PartialEq)]
pub struct JsonField {
    pub name: String,
    pub value: JsonValue,
}

/// The mathematical model of a numeric value.
pub enum NumberV {
    Unsigned(u64),
    Signed(i64),
    Decimal(Seq<char>),
}

/// The mathematical model of a JSON-like value.
pub enum ValueV {
    Null,
    Bool(bool),
    Num(NumberV),
    Str(Seq<char>),
    Arr(Seq<ValueV>),
    Obj(Seq<(Seq<char>, ValueV)>),
}

/// Character-for-character equality of two string slices.
pub fn str_eq(a: &str, b: &str) -> (r: bool)
    ensures
        r == (a@ == b@),
{
    let la = a.unicode_len();
    let lb = b.unicode_len();
    if la != lb {
        return false;
    }
    let mut i: usize = 0;
    while i < la
        invariant
            la == a@.len(),
            la == b@.len(),
            i <= la,
            forall|j: int| 0 <= j < i ==> a@[j] == b@[j],
        decreases la - i,
    {
        if a.get_char(i) != b.get_char(i) {
            return false;
        }
        i = i + 1;
    }
    proof {
        assert(a@ =~= b@);
    }
    true
}

impl JsonNumber {
    pub open spec fn dv(self) -> NumberV {
        match self {
            JsonNumber::Unsigned(u) => NumberV::Unsigned(u),
            JsonNumber::Signed(i) => NumberV::Signed(i),
            JsonNumber::Decimal(s) => NumberV::Decimal(s@),
        }
    }
}

impl JsonValue {
    /// The model of a value: every `String` becomes its character sequence.
    pub open spec fn dv(self) -> ValueV
        decreases self,
    {
        match self {
            JsonValue::Null => ValueV::Null,
            JsonValue::Bool(b) => ValueV::Bool(b),
            JsonValue::Num(n) => ValueV::Num(n.dv()),
            JsonValue::Str(s) => ValueV::Str(s@),
            JsonValue::Arr(items) => ValueV::Arr(dv_list(items@)),
            JsonValue::Obj(entries) => ValueV::Obj(dv_entries(entries@)),
        }
    }
}

/// Model of a sequence of values, element by element.
pub open spec fn dv_list(s: Seq<JsonValue>) -> Seq<ValueV>
    decreases s,
{
    if s.len() == 0 {
        Seq::empty()
    } else {
        dv_list(s.drop_last()).push(s.last().dv())
    }
}

/// Model of a sequence of named values, entry by entry.
pub open spec fn dv_entries(s: Seq<JsonField>) -> Seq<(Seq<char>, ValueV)>
    decreases s,
{
    if s.len() == 0 {
        Seq::empty()
    } else {
        dv_entries(s.drop_last()).push((s.last().name@, s.last().value.dv()))
    }
}

/// Every field name unique, at every nesting depth.
pub open spec fn value_wf(v: ValueV) -> bool
    decreases v,
{
    match v {
        ValueV::Arr(items) => forall|i: int|
            0 <= i < items.len() ==> value_wf(#[trigger] items[i]),
        ValueV::Obj(o) => obj_wf(o) && forall|i: int|
            0 <= i < o.len() ==> value_wf(#[trigger] o[i].1),
        _ => true,
    }
}

/// The model of one record: an ordered association of field names to values.
pub type ObjV = Seq<(Seq<char>, ValueV)>;

/// A key occurs somewhere in the record.
pub open spec fn obj_has_key(o: ObjV, k: Seq<char>) -> bool {
    exists|i: int| 0 <= i < o.len() && o[i].0 == k
}

/// The position of a key in the record (meaningful only when the key occurs;
/// unique when the record is well formed).
pub open spec fn obj_key_at(o: ObjV, k: Seq<char>) -> int {
    choose|i: int| 0 <= i < o.len() && o[i].0 == k
}

/// The value stored under a key, if any.
pub open spec fn obj_get(o: ObjV, k: Seq<char>) -> Option<ValueV> {
    if obj_has_key(o, k) {
        Some(o[obj_key_at(o, k)].1)
    } else {
        None
    }
}

/// Every field name occurs at most once.
pub open spec fn obj_wf(o: ObjV) -> bool {
    forall|i: int, j: int| 0 <= i < j < o.len() ==> o[i].0 != o[j].0
}

/// The predicate that keeps every entry whose key is not `k`.
pub open spec fn key_is_not(k: Seq<char>) -> spec_fn((Seq<char>, ValueV)) -> bool {
    |p: (Seq<char>, ValueV)| p.0 != k
}

/// The record with every entry under the key taken out, order otherwise kept.
pub open spec fn obj_remove(o: ObjV, k: Seq<char>) -> ObjV {
    o.filter(key_is_not(k))
}

/// Store a value under a key: in place where the key already occurs,
/// appended at the end where it does not.
pub open spec fn obj_insert(o: ObjV, k: Seq<char>, v: ValueV) -> ObjV {
    if obj_has_key(o, k) {
        o.update(obj_key_at(o, k), (k, v))
    } else {
        o.push((k, v))
    }
}

/// One normalized record: an insertion-ordered mapping of field names to
/// JSON-like values, each name held at most once.
#[derive(Debug, PartialEq)]
pub struct JsonObject {
    entries: Vec<JsonField>,
}

impl JsonObject {
    /// The model of the record.
    pub closed spec fn dv(self) -> ObjV {
        dv_entries(self.entries@)
    }

    pub open spec fn wf(self) -> bool {
        obj_wf(self.dv())
    }

    pub fn new() -> (r: JsonObject)
        ensures
            r.dv() == Seq::<(Seq<char>, ValueV)>::empty(),
            r.wf(),
    {
        JsonObject { entries: Vec::new() }
    }

    pub fn len(&self) -> (n: usize)
        ensures
            n == self.dv().len(),
    {
        proof {
            lemma_dv_entries_len(self.entries@);
        }
        self.entries.len()
    }

    /// The name and value at a position.
    pub fn entry_at(&self, i: usize) -> (r: &JsonField)
        requires
            i < self.dv().len(),
        ensures
            (r.name@, r.value.dv()) == self.dv()[i as int],
    {
        proof {
            lemma_dv_entries_len(self.entries@);
            lemma_dv_entries_index(self.entries@, i as int);
        }
        &self.entries[i]
    }

    /// The position of a field name, if it occurs.
    pub fn find(&self, k: &str) -> (r: Option<usize>)
        ensures
            match r {
                Some(i) => i < self.dv().len() && self.dv()[i as int].0 == k@
                    && obj_has_key(self.dv(), k@),
                None => !obj_has_key(self.dv(), k@),
            },
    {
        proof {
            lemma_dv_entries_len(self.entries@);
        }
        let n = self.entries.len();
        let mut i: usize = 0;
        while i < n
            invariant
                n == self.dv().len(),
                n == self.entries@.len(),
                i <= n,
                forall|j: int| 0 <= j < i ==> self.dv()[j].0 != k@,
            decreases n - i,
        {
            proof {
                lemma_dv_entries_index(self.entries@, i as int);
            }
            if str_eq(self.entries[i].name.as_str(), k) {
                return Some(i);
            }
            i = i + 1;
        }
        None
    }

    /// Look a field up by name.
    pub fn get<'a>(&'a self, k: &str) -> (r: Option<&'a JsonValue>)
        requires
            self.wf(),
        ensures
            match r {
                Some(v) => obj_get(self.dv(), k@) == Some(v.dv()),
                None => obj_get(self.dv(), k@) is None,
            },
    {
        match self.find(k) {
            Some(i) => {
                proof {
                    lemma_dv_entries_len(self.entries@);
                    lemma_dv_entries_index(self.entries@, i as int);
                    let ghost at = obj_key_at(self.dv(), k@);
                    assert(self.dv()[at].0 == k@);
                    assert(at == i as int);
                }
                Some(&self.entries[i].value)
            },
            None => None,
        }
    }

    /// Take a field out by name, returning its value.
    pub fn remove(&mut self, k: &str) -> (r: Option<JsonValue>)
        requires
            old(self).wf(),
        ensures
            final(self).dv() == obj_remove(old(self).dv(), k@),
            final(self).wf(),
            match r {
                Some(v) => obj_get(old(self).dv(), k@) == Some(v.dv()),
                None => obj_get(old(self).dv(), k@) is None,
            },
    {
        let found = self.find(k);
        match found {
            Some(i) => {
                proof {
                    lemma_dv_entries_len(self.entries@);
                    lemma_dv_entries_index(self.entries@, i as int);
                    let ghost at = obj_key_at(self.dv(), k@);
                    assert(self.dv()[at].0 == k@);
                    assert(at == i as int);
                }
                let p = self.entries.remove(i);
                proof {
                    lemma_dv_entries_remove_is_filter(old(self).entries@, i as int, k@);
                    assert(final(self).wf()) by {
                        assert(final(self).dv() == old(self).dv().remove(i as int));
                        lemma_wf_remove(old(self).dv(), i as int);
                    }
                }
                Some(p.value)
            },
            None => {
                proof {
                    lemma_obj_remove_absent(self.dv(), k@);
                }
                None
            },
        }
    }

    /// Store a value under a name: in place where the name already occurs,
    /// at the end where it does not.
    pub fn insert(&mut self, k: String, v: JsonValue)
        requires
            old(self).wf(),
        ensures
            final(self).dv() == obj_insert(old(self).dv(), k@, v.dv()),
            final(self).wf(),
    {
        let found = self.find(k.as_str());
        match found {
            Some(i) => {
                proof {
                    lemma_dv_entries_len(self.entries@);
                    let ghost at = obj_key_at(self.dv(), k@);
                    assert(self.dv()[at].0 == k@);
                    assert(at == i as int);
                }
                self.entries.set(i, JsonField { name: k, value: v });
                proof {
                    lemma_dv_entries_update(
                        old(self).entries@,
                        i as int,
                        (JsonField { name: k, value: v }),
                    );
                    assert(final(self).dv() =~= obj_insert(old(self).dv(), k@, v.dv()));
                    assert(final(self).wf()) by {
                        lemma_obj_update_wf(old(self).dv(), i as int, k@, v.dv());
                    }
                }
            },
            None => {
                self.entries.push(JsonField { name: k, value: v });
                proof {
                    assert(self.entries@.drop_last() =~= old(self).entries@);
                    assert(final(self).dv() == obj_insert(old(self).dv(), k@, v.dv()));
                    lemma_dv_entries_len(old(self).entries@);
                    assert(final(self).wf()) by {
                        lemma_obj_push_wf(old(self).dv(), k@, v.dv());
                    }
                }
            },
        }
    }
}

/// Removing the (unique) entry at a position whose key is `k` is the same
/// as filtering the key out, when the record is well formed.
proof fn lemma_dv_entries_remove_is_filter(s: Seq<JsonField>, i: int, k: Seq<char>)
    requires
        0 <= i < s.len(),
        dv_entries(s)[i].0 == k,
        obj_wf(dv_entries(s)),
    ensures
        dv_entries(s.remove(i)) == obj_remove(dv_entries(s), k),
        dv_entries(s.remove(i)) == dv_entries(s).remove(i),
{
    lemma_dv_entries_len(s);
    let d = dv_entries(s);
    let pred = key_is_not(k);
    assert forall|j: int| 0 <= j < s.remove(i).len() implies #[trigger] dv_entries(s.remove(i))[j]
        == (if j < i { d[j] } else { d[j + 1] }) by {
        lemma_dv_entries_index(s.remove(i), j);
        if j < i {
            lemma_dv_entries_index(s, j);
        } else {
            lemma_dv_entries_index(s, j + 1);
        }
    }
    lemma_dv_entries_len(s.remove(i));
    assert forall|j: int| 0 <= j < d.len() && j != i implies #[trigger] pred(d[j]) by {
        if d[j].0 == k {
            if j < i {
                assert(d[j].0 != d[i].0);
            } else {
                assert(d[i].0 != d[j].0);
            }
        }
    }
    lemma_filter_out_one(d, i, k);
    assert(dv_entries(s.remove(i)) =~= d.remove(i));
}

/// Filtering a key out of a sequence where only position `i` carries it
/// removes exactly that position.
proof fn lemma_filter_out_one(d: ObjV, i: int, k: Seq<char>)
    requires
        0 <= i < d.len(),
        d[i].0 == k,
        forall|j: int| 0 <= j < d.len() && j != i ==> #[trigger] d[j].0 != k,
    ensures
        d.filter(key_is_not(k)) == d.remove(i),
    decreases d.len(),
{
    let pred = key_is_not(k);
    reveal(Seq::filter);
    if i == d.len() - 1 {
        assert(d.drop_last().filter(pred) =~= d.drop_last()) by {
            lemma_filter_all(d.drop_last(), k);
        }
        assert(d.remove(i) =~= d.drop_last());
    } else {
        lemma_filter_out_one(d.drop_last(), i, k);
        assert(d.remove(i) =~= d.drop_last().remove(i).push(d.last()));
        assert(d.filter(pred) =~= d.drop_last().filter(pred).push(d.last()));
    }
}

/// Filtering a key that occurs nowhere changes nothing.
proof fn lemma_filter_all(d: ObjV, k: Seq<char>)
    requires
        forall|j: int| 0 <= j < d.len() ==> #[trigger] d[j].0 != k,
    ensures
        d.filter(key_is_not(k)) == d,
    decreases d.len(),
{
    reveal(Seq::filter);
    if d.len() > 0 {
        lemma_filter_all(d.drop_last(), k);
        assert(d.filter(key_is_not(k)) =~= d);
    } else {
        assert(d.filter(key_is_not(k)) =~= d);
    }
}

pub proof fn lemma_obj_remove_absent(o: ObjV, k: Seq<char>)
    requires
        !obj_has_key(o, k),
    ensures
        obj_remove(o, k) == o,
{
    assert forall|j: int| 0 <= j < o.len() implies #[trigger] o[j].0 != k by {
        if o[j].0 == k {
            assert(obj_has_key(o, k));
        }
    }
    lemma_filter_all(o, k);
}

/// Taking one position out keeps the names unique.
proof fn lemma_wf_remove(d: ObjV, i: int)
    requires
        obj_wf(d),
        0 <= i < d.len(),
    ensures
        obj_wf(d.remove(i)),
{
    d.remove_ensures(i);
    assert forall|a: int, b: int| 0 <= a < b < d.remove(i).len() implies d.remove(i)[a].0
        != d.remove(i)[b].0 by {
        let a0 = if a < i { a } else { a + 1 };
        let b0 = if b < i { b } else { b + 1 };
        assert(d.remove(i)[a] == d[a0]);
        assert(d.remove(i)[b] == d[b0]);
    }
}

proof fn lemma_obj_update_wf(o: ObjV, i: int, k: Seq<char>, v: ValueV)
    requires
        obj_wf(o),
        0 <= i < o.len(),
        o[i].0 == k,
    ensures
        obj_wf(o.update(i, (k, v))),
{
}

proof fn lemma_obj_push_wf(o: ObjV, k: Seq<char>, v: ValueV)
    requires
        obj_wf(o),
        !obj_has_key(o, k),
    ensures
        obj_wf(o.push((k, v))),
{
    assert forall|a: int, b: int| 0 <= a < b < o.push((k, v)).len() implies o.push((k, v))[a].0
        != o.push((k, v))[b].0 by {
        if b == o.len() {
            if o[a].0 == k {
                assert(obj_has_key(o, k));
            }
        }
    }
}

proof fn lemma_dv_entries_update(s: Seq<JsonField>, i: int, p: JsonField)
    requires
        0 <= i < s.len(),
    ensures
        dv_entries(s.update(i, p)) =~= dv_entries(s).update(i, (p.name@, p.value.dv())),
{
    lemma_dv_entries_len(s);
    lemma_dv_entries_len(s.update(i, p));
    assert forall|j: int| 0 <= j < s.len() implies #[trigger] dv_entries(s.update(i, p))[j]
        == dv_entries(s).update(i, (p.name@, p.value.dv()))[j] by {
        lemma_dv_entries_index(s.update(i, p), j);
        lemma_dv_entries_index(s, j);
    }
}

pub broadcast proof fn lemma_dv_list_index(s: Seq<JsonValue>, i: int)
    requires
        0 <= i < s.len(),
    ensures
        #[trigger] dv_list(s)[i] == s[i].dv(),
        dv_list(s).len() == s.len(),
    decreases s,
{
    lemma_dv_list_len(s);
    if s.len() > 0 && i < s.len() - 1 {
        lemma_dv_list_index(s.drop_last(), i);
    }
}

pub broadcast proof fn lemma_dv_list_len(s: Seq<JsonValue>)
    ensures
        #[trigger] dv_list(s).len() == s.len(),
    decreases s,
{
    if s.len() > 0 {
        lemma_dv_list_len(s.drop_last());
    }
}

pub broadcast proof fn lemma_dv_entries_index(s: Seq<JsonField>, i: int)
    requires
        0 <= i < s.len(),
    ensures
        #[trigger] dv_entries(s)[i] == (s[i].name@, s[i].value.dv()),
        dv_entries(s).len() == s.len(),
    decreases s,
{
    lemma_dv_entries_len(s);
    if s.len() > 0 && i < s.len() - 1 {
        lemma_dv_entries_index(s.drop_last(), i);
    }
}

pub broadcast proof fn lemma_dv_entries_len(s: Seq<JsonField>)
    ensures
        #[trigger] dv_entries(s).len() == s.len(),
    decreases s,
{
    if s.len() > 0 {
        lemma_dv_entries_len(s.drop_last());
    }
}

/// Appending a fresh key: the new key reads the new value, every other
/// key reads as before.
proof fn lemma_obj_get_push(x: ObjV, p: (Seq<char>, ValueV), k2: Seq<char>)
    requires
        obj_wf(x),
        !obj_has_key(x, p.0),
    ensures
        obj_get(x.push(p), p.0) == Some(p.1),
        k2 != p.0 ==> obj_get(x.push(p), k2) == obj_get(x, k2),
{
    let y = x.push(p);
    assert(y[x.len() as int] == p);
    assert(obj_has_key(y, p.0));
    let i = obj_key_at(y, p.0);
    assert(y[i].0 == p.0);
    if i < x.len() {
        assert(x[i].0 == p.0);
        assert(obj_has_key(x, p.0));
    }
    if k2 != p.0 {
        if obj_has_key(x, k2) {
            let j = obj_key_at(x, k2);
            assert(y[j].0 == k2);
            assert(obj_has_key(y, k2));
            let j2 = obj_key_at(y, k2);
            assert(y[j2].0 == k2);
            assert(j2 != x.len());
            assert(x[j2].0 == k2);
            assert(j2 == j || (j2 < j && x[j2].0 != x[j].0) || (j < j2 && x[j].0 != x[j2].0));
        } else {
            if obj_has_key(y, k2) {
                let j2 = obj_key_at(y, k2);
                assert(y[j2].0 == k2);
                assert(j2 != x.len());
                assert(x[j2].0 == k2);
                assert(obj_has_key(x, k2));
            }
        }
    }
}

/// Taking a key out: the key is gone, the names stay unique, every other
/// key reads as before.
pub proof fn lemma_obj_remove_props(o: ObjV, k: Seq<char>)
    requires
        obj_wf(o),
    ensures
        obj_wf(obj_remove(o, k)),
        !obj_has_key(obj_remove(o, k), k),
        forall|k2: Seq<char>| k2 != k ==> obj_get(obj_remove(o, k), k2) == obj_get(o, k2),
    decreases o.len(),
{
    reveal(Seq::filter);
    let r = obj_remove(o, k);
    if o.len() == 0 {
        assert(r =~= o);
        if obj_has_key(r, k) {
            let i = obj_key_at(r, k);
        }
    } else {
        let d = o.drop_last();
        let last = o.last();
        assert(o =~= d.push(last));
        assert(obj_wf(d)) by {
            assert forall|i: int, j: int| 0 <= i < j < d.len() implies d[i].0 != d[j].0 by {
                assert(o[i].0 != o[j].0);
            }
        }
        lemma_obj_remove_props(d, k);
        let rd = obj_remove(d, k);
        assert(!obj_has_key(d, last.0)) by {
            if obj_has_key(d, last.0) {
                let i = obj_key_at(d, last.0);
                assert(o[i].0 == o[o.len() - 1].0);
            }
        }
        if last.0 != k {
            assert(r == rd.push(last));
            assert(!obj_has_key(rd, last.0)) by {
                assert(obj_get(rd, last.0) == obj_get(d, last.0));
                if obj_has_key(d, last.0) {
                } else {
                    if obj_has_key(rd, last.0) {
                        assert(obj_get(rd, last.0) is Some);
                    }
                }
            }
            lemma_obj_push_wf(rd, last.0, last.1);
            assert(obj_wf(r));
            assert(!obj_has_key(r, k)) by {
                if obj_has_key(r, k) {
                    let i = obj_key_at(r, k);
                    assert(r[i].0 == k);
                    if i < rd.len() {
                        assert(obj_has_key(rd, k));
                    }
                }
            }
            assert forall|k2: Seq<char>| k2 != k implies obj_get(r, k2) == obj_get(o, k2) by {
                lemma_obj_get_push(rd, last, k2);
                lemma_obj_get_push(d, last, k2);
                if k2 == last.0 {
                    assert(obj_get(r, last.0) == Some(last.1));
                    assert(obj_get(o, last.0) == Some(last.1));
                } else {
                    assert(obj_get(r, k2) == obj_get(rd, k2));
                    assert(obj_get(o, k2) == obj_get(d, k2));
                }
            }
        } else {
            assert(r == rd);
            assert forall|k2: Seq<char>| k2 != k implies obj_get(r, k2) == obj_get(o, k2) by {
                lemma_obj_get_push(d, last, k2);
                assert(obj_get(o, k2) == obj_get(d, k2));
            }
        }
    }
}

/// Storing under a key: the key reads the new value, the names stay
/// unique, every other key reads as before.
pub proof fn lemma_obj_insert_props(x: ObjV, k: Seq<char>, v: ValueV)
    requires
        obj_wf(x),
    ensures
        obj_wf(obj_insert(x, k, v)),
        obj_get(obj_insert(x, k, v), k) == Some(v),
        forall|k2: Seq<char>| k2 != k ==> obj_get(obj_insert(x, k, v), k2) == obj_get(x, k2),
{
    let y = obj_insert(x, k, v);
    if obj_has_key(x, k) {
        let at = obj_key_at(x, k);
        assert(x[at].0 == k);
        assert(y == x.update(at, (k, v)));
        assert(obj_wf(y)) by {
            assert forall|i: int, j: int| 0 <= i < j < y.len() implies y[i].0 != y[j].0 by {
                assert(x[i].0 != x[j].0);
            }
        }
        assert(y[at] == (k, v));
        assert(obj_has_key(y, k));
        let at2 = obj_key_at(y, k);
        assert(y[at2].0 == k);
        assert(at2 == at) by {
            if at2 != at {
                assert(x[at2].0 == k);
            }
        }
        assert(obj_get(y, k) == Some(v));
        assert forall|k2: Seq<char>| k2 != k implies obj_get(y, k2) == obj_get(x, k2) by {
            if obj_has_key(x, k2) {
                let j = obj_key_at(x, k2);
                assert(x[j].0 == k2);
                assert(j != at);
                assert(y[j] == x[j]);
                assert(obj_has_key(y, k2));
                let j2 = obj_key_at(y, k2);
                assert(y[j2].0 == k2);
                assert(j2 != at);
                assert(x[j2].0 == k2);
                assert(j2 == j) by {
                    if j2 != j {
                        assert(x[j].0 != x[j2].0 || x[j2].0 != x[j].0);
                    }
                }
            } else {
                if obj_has_key(y, k2) {
                    let j2 = obj_key_at(y, k2);
                    assert(y[j2].0 == k2);
                    assert(j2 != at);
                    assert(x[j2].0 == k2);
                    assert(obj_has_key(x, k2));
                }
            }
        }
    } else {
        assert(y == x.push((k, v)));
        lemma_obj_push_wf(x, k, v);
        assert forall|k2: Seq<char>| k2 != k implies obj_get(y, k2) == obj_get(x, k2) by {
            lemma_obj_get_push(x, (k, v), k2);
        }
        lemma_obj_get_push(x, (k, v), k);
    }
}

} // verus!
