//! A mathematical model of the store that the coordinator drives: what is
//! durable, what a commit would make durable, and what the read snapshot
//! shows. The upsert, clear and reload guarantees of the pipeline are
//! stated and proved against this model.

use vstd::prelude::*;

use crate::document::{doc_id, doc_values_named, DocV, TypedValueV};
use crate::input::{process_model, InputV, WriterOpV};
use crate::schema::{sch_has, SchemaV};

verus! {

/// A point-in-time model of the store. `pending` is what a commit would
/// make durable, `committed` what the last commit made durable, and
/// `snapshot` what the read path shows: it advances to `committed` only
/// on a reload.
pub struct IndexModel {
    pub committed: Seq<DocV>,
    pub pending: Seq<DocV>,
    pub snapshot: Seq<DocV>,
}

/// The documents whose "id" field holds the given value.
pub open spec fn holds_id_fn(id: u64) -> spec_fn(DocV) -> bool {
    |d: DocV| doc_values_named(d, "id"@).contains(TypedValueV::U64(id))
}

/// The documents whose "id" field does not hold the given value.
pub open spec fn lacks_id_fn(id: u64) -> spec_fn(DocV) -> bool {
    |d: DocV| !doc_values_named(d, "id"@).contains(TypedValueV::U64(id))
}

pub open spec fn docs_with_id(ds: Seq<DocV>, id: u64) -> Seq<DocV> {
    ds.filter(holds_id_fn(id))
}

/// One writer operation applied to the store model.
pub open spec fn apply_op(m: IndexModel, op: WriterOpV) -> IndexModel {
    match op {
        WriterOpV::AddDoc(d) => IndexModel { pending: m.pending.push(d), ..m },
        WriterOpV::DeleteTerm(id) => IndexModel { pending: m.pending.filter(lacks_id_fn(id)), ..m },
        WriterOpV::Commit => IndexModel { committed: m.pending, ..m },
        WriterOpV::Clear => IndexModel { pending: Seq::empty(), ..m },
    }
}

/// A sequence of writer operations applied in order.
pub open spec fn apply_ops(m: IndexModel, ops: Seq<WriterOpV>) -> IndexModel
    decreases ops.len(),
{
    if ops.len() == 0 {
        m
    } else {
        apply_op(apply_ops(m, ops.drop_last()), ops.last())
    }
}

/// Advance the read snapshot to the latest committed state.
pub open spec fn reload_model(m: IndexModel) -> IndexModel {
    IndexModel { snapshot: m.committed, ..m }
}

/// How many documents the read path sees.
pub open spec fn visible_docs(m: IndexModel) -> nat {
    m.snapshot.len()
}

/// Reloading twice with no commit in between is reloading once: the
/// snapshot, and with it the visible document count, do not change.
pub proof fn lemma_reload_idempotent(m: IndexModel)
    ensures
        reload_model(reload_model(m)) == reload_model(m),
        visible_docs(reload_model(reload_model(m))) == visible_docs(reload_model(m)),
{
}

/// A clear followed by a commit and a reload leaves nothing visible,
/// whatever the store held before.
pub proof fn lemma_clear_commit_reload(m: IndexModel, s: SchemaV)
    ensures
        visible_docs(
            reload_model(
                apply_ops(
                    apply_ops(m, process_model(InputV::Clear, s)),
                    process_model(InputV::Commit, s),
                ),
            ),
        ) == 0,
{
    let clear_ops = process_model(InputV::Clear, s);
    let commit_ops = process_model(InputV::Commit, s);
    assert(clear_ops =~= seq![WriterOpV::Clear]);
    assert(commit_ops =~= seq![WriterOpV::Commit]);
    assert(clear_ops.drop_last() =~= Seq::<WriterOpV>::empty());
    assert(commit_ops.drop_last() =~= Seq::<WriterOpV>::empty());
    let m1 = apply_ops(m, clear_ops);
    assert(apply_ops(m, Seq::<WriterOpV>::empty()) == m);
    assert(m1 == apply_op(m, WriterOpV::Clear));
    let m2 = apply_ops(m1, commit_ops);
    assert(apply_ops(m1, Seq::<WriterOpV>::empty()) == m1);
    assert(m2 == apply_op(m1, WriterOpV::Commit));
    assert(reload_model(m2).snapshot =~= Seq::<DocV>::empty());
}

/// An upsert whose documents resolve no identifier plans exactly the
/// operations of a plain insert; so does any upsert when the schema
/// declares no "id" field.
pub proof fn lemma_update_without_id_like_create(ds: Seq<DocV>, s: SchemaV)
    requires
        !sch_has(s, "id"@) || forall|i: int| 0 <= i < ds.len() ==> doc_id(#[trigger] ds[i]) is None,
    ensures
        process_model(InputV::Update(ds), s) == process_model(InputV::Create(ds), s),
    decreases ds.len(),
{
    let hid = sch_has(s, "id"@);
    if ds.len() == 0 {
        assert(crate::input::plan_updates(ds, hid) =~= crate::input::plan_creates(ds));
    } else {
        lemma_update_without_id_like_create(ds.drop_last(), s);
        assert(crate::input::plan_update_one(ds.last(), hid) =~= seq![
            WriterOpV::AddDoc(ds.last()),
        ]);
        assert(crate::input::plan_updates(ds, hid) =~= crate::input::plan_creates(ds));
    }
}

/// No element of a filtered-out class survives a second filter for it.
proof fn lemma_filter_opposite(ds: Seq<DocV>, id: u64)
    requires
        forall|i: int| 0 <= i < ds.len() ==> !holds_id_fn(id)(#[trigger] ds[i]),
    ensures
        ds.filter(holds_id_fn(id)) == Seq::<DocV>::empty(),
    decreases ds.len(),
{
    reveal(Seq::filter);
    if ds.len() > 0 {
        lemma_filter_opposite(ds.drop_last(), id);
        assert(ds.filter(holds_id_fn(id)) =~= Seq::<DocV>::empty());
    } else {
        assert(ds.filter(holds_id_fn(id)) =~= Seq::<DocV>::empty());
    }
}

/// Submitting an upsert twice with the same identifier and different
/// content leaves exactly one document with that identifier visible after
/// a commit and a reload: the one submitted second.
pub proof fn lemma_upsert_latest_wins(m: IndexModel, s: SchemaV, d1: DocV, d2: DocV, id: u64)
    requires
        sch_has(s, "id"@),
        doc_id(d1) == Some(id),
        doc_id(d2) == Some(id),
    ensures
        ({
            let m1 = apply_ops(m, process_model(InputV::Update(seq![d1]), s));
            let m2 = apply_ops(m1, process_model(InputV::Update(seq![d2]), s));
            let m3 = reload_model(apply_ops(m2, process_model(InputV::Commit, s)));
            docs_with_id(m3.snapshot, id) == seq![d2]
        }),
{
    broadcast use vstd::prelude::Seq::lemma_filter_push;

    let holds = holds_id_fn(id);
    let lacks = lacks_id_fn(id);
    assert(holds(d1)) by {
        assert(doc_values_named(d1, "id"@).len() == 1);
        assert(doc_values_named(d1, "id"@)[0] == TypedValueV::U64(id));
    }
    assert(holds(d2)) by {
        assert(doc_values_named(d2, "id"@).len() == 1);
        assert(doc_values_named(d2, "id"@)[0] == TypedValueV::U64(id));
    }
    let e_docs: Seq<DocV> = Seq::empty();
    let e_ops: Seq<WriterOpV> = Seq::empty();
    assert(crate::input::plan_updates(e_docs, true) == e_ops);
    let up1 = process_model(InputV::Update(seq![d1]), s);
    assert(seq![d1].drop_last() =~= e_docs);
    assert(crate::input::plan_update_one(d1, true) =~= seq![
        WriterOpV::DeleteTerm(id),
        WriterOpV::AddDoc(d1),
    ]);
    assert(up1 =~= seq![WriterOpV::DeleteTerm(id), WriterOpV::AddDoc(d1)]);
    let up2 = process_model(InputV::Update(seq![d2]), s);
    assert(seq![d2].drop_last() =~= e_docs);
    assert(crate::input::plan_update_one(d2, true) =~= seq![
        WriterOpV::DeleteTerm(id),
        WriterOpV::AddDoc(d2),
    ]);
    assert(up2 =~= seq![WriterOpV::DeleteTerm(id), WriterOpV::AddDoc(d2)]);
    let commit_ops = process_model(InputV::Commit, s);
    assert(commit_ops =~= seq![WriterOpV::Commit]);

    let del = seq![WriterOpV::DeleteTerm(id)];
    assert(up1.drop_last() =~= del);
    assert(del.drop_last() =~= e_ops);
    assert(up2.drop_last() =~= del);
    assert(commit_ops.drop_last() =~= e_ops);

    let p0 = m.pending;
    assert(apply_ops(m, e_ops) == m);
    assert(apply_ops(m, del) == apply_op(m, WriterOpV::DeleteTerm(id)));
    let m1 = apply_ops(m, up1);
    assert(m1 == apply_op(apply_ops(m, del), WriterOpV::AddDoc(d1)));
    assert(m1.pending == p0.filter(lacks).push(d1));
    assert(apply_ops(m1, e_ops) == m1);
    assert(apply_ops(m1, del) == apply_op(m1, WriterOpV::DeleteTerm(id)));
    let m2 = apply_ops(m1, up2);
    assert(m2 == apply_op(apply_ops(m1, del), WriterOpV::AddDoc(d2)));
    let p3 = m1.pending.filter(lacks);
    assert(m2.pending == p3.push(d2));
    assert(apply_ops(m2, e_ops) == m2);
    let m3 = reload_model(apply_ops(m2, commit_ops));
    assert(m3.snapshot == m2.pending);

    assert forall|i: int| 0 <= i < p3.len() implies !holds(#[trigger] p3[i]) by {
        m1.pending.lemma_filter_pred(lacks, i);
    }
    lemma_filter_opposite(p3, id);
    assert(p3.push(d2).filter(holds) =~= p3.filter(holds).push(d2));
    assert(docs_with_id(m3.snapshot, id) =~= seq![d2]);
}

} // verus!
