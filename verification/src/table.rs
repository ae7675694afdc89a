//! The entity table: an identifier-indexed store of unresolved records,
//! segregated per concrete type, built once and then only read.  Lookup
//! resolves a stored record on demand; iteration resolves every stored
//! record of one type, each independently, in insertion order.

use crate::decode::{decode_record, s_decode_record};
use crate::error::Error;
use crate::record::{EntityId, Record};
use crate::resolve::{
    lemma_first_claim, lemma_ovals_view_push, lemma_uvals_view_index, ores_view, ovals_view,
    rvec_view, s_claims, s_first_claim, s_get_owned, s_iter_entries, s_iter_variants,
    s_owned_iter, s_resolve, s_resolve_fields, s_resolve_items, s_slot_contains, s_slot_find,
    s_variant_claims, suval_size, suvals_size, uval_wt, uvals_view, uvals_wt, wrap_case,
    OwnedValue, SpecOval, SpecSlots, SpecUval, UnresolvedValue,
};
use crate::schema::{FieldKind, Schema, TypeDef};
use vstd::prelude::*;

verus! {

/// One stored record: its identifier and its decoded, unresolved fields.
#[derive(Debug, PartialEq, Eq)]
pub struct TableEntry {
    pub id: EntityId,
    pub vals: Vec<UnresolvedValue>,
}

/// The model of one stored record.
pub open spec fn entry_view(e: TableEntry) -> (EntityId, Seq<SpecUval>) {
    (e.id, uvals_view(e.vals@))
}

/// The model of one type's slot, in insertion order.
pub open spec fn slot_view(entries: Seq<TableEntry>) -> Seq<(EntityId, Seq<SpecUval>)> {
    Seq::new(entries.len(), |i: int| entry_view(entries[i]))
}

/// Replace the record stored under `id`, keeping its position, or append
/// a new record at the end.
pub open spec fn s_slot_put(
    slot: Seq<(EntityId, Seq<SpecUval>)>,
    id: EntityId,
    vals: Seq<SpecUval>,
) -> Seq<(EntityId, Seq<SpecUval>)>
    decreases slot.len(),
{
    if slot.len() == 0 {
        seq![(id, vals)]
    } else if slot[0].0 == id {
        seq![(id, vals)] + slot.skip(1)
    } else {
        seq![slot[0]] + s_slot_put(slot.skip(1), id, vals)
    }
}

/// Putting an absent identifier appends; putting a present one replaces
/// in place, at the first position that holds it.
pub proof fn lemma_slot_put(slot: Seq<(EntityId, Seq<SpecUval>)>, id: EntityId, vals: Seq<SpecUval>)
    ensures
        !s_slot_contains(slot, id) ==> s_slot_put(slot, id, vals) == slot.push((id, vals)),
        forall|p: int|
            0 <= p < slot.len() && slot[p].0 == id && (forall|i: int|
                0 <= i < p ==> (#[trigger] slot[i]).0 != id) ==> s_slot_put(slot, id, vals)
                == #[trigger] slot.update(p, (id, vals)),
    decreases slot.len(),
{
    if slot.len() == 0 {
        assert(s_slot_put(slot, id, vals) =~= slot.push((id, vals)));
    } else if slot[0].0 == id {
        assert forall|p: int|
            0 <= p < slot.len() && slot[p].0 == id && (forall|i: int|
                0 <= i < p ==> (#[trigger] slot[i]).0 != id) implies s_slot_put(slot, id, vals)
            == #[trigger] slot.update(p, (id, vals)) by {
            assert(p == 0);
            assert(s_slot_put(slot, id, vals) =~= slot.update(0, (id, vals)));
        }
    } else {
        lemma_slot_put(slot.skip(1), id, vals);
        if !s_slot_contains(slot, id) {
            assert(s_slot_put(slot.skip(1), id, vals) == slot.skip(1).push((id, vals)));
            assert(s_slot_put(slot, id, vals) =~= slot.push((id, vals)));
        }
        assert forall|p: int|
            0 <= p < slot.len() && slot[p].0 == id && (forall|i: int|
                0 <= i < p ==> (#[trigger] slot[i]).0 != id) implies s_slot_put(slot, id, vals)
            == #[trigger] slot.update(p, (id, vals)) by {
            assert(p >= 1);
            assert(slot.skip(1)[p - 1].0 == id);
            assert forall|i: int| 0 <= i < p - 1 implies (#[trigger] slot.skip(1)[i]).0 != id by {
                assert(slot.skip(1)[i] == slot[i + 1]);
            }
            assert(s_slot_put(slot.skip(1), id, vals) == slot.skip(1).update(p - 1, (id, vals)));
            assert(s_slot_put(slot, id, vals) =~= slot.update(p, (id, vals)));
        }
    }
}

/// What `s_slot_find` finds: the first stored record with the identifier,
/// in insertion order, or nothing.
pub proof fn lemma_slot_find(slot: Seq<(EntityId, Seq<SpecUval>)>, id: EntityId)
    ensures
        match s_slot_find(slot, id) {
            Option::Some(vals) => exists|p: int|
                0 <= p < slot.len() && (#[trigger] slot[p]) == (id, vals) && forall|i: int|
                    0 <= i < p ==> (#[trigger] slot[i]).0 != id,
            Option::None => forall|i: int| 0 <= i < slot.len() ==> (#[trigger] slot[i]).0 != id,
        },
    decreases slot.len(),
{
    if slot.len() > 0 && slot[0].0 != id {
        lemma_slot_find(slot.skip(1), id);
        match s_slot_find(slot.skip(1), id) {
            Option::Some(vals) => {
                let p = choose|p: int|
                    0 <= p < slot.skip(1).len() && (#[trigger] slot.skip(1)[p]) == (id, vals)
                        && forall|i: int| 0 <= i < p ==> (#[trigger] slot.skip(1)[i]).0 != id;
                assert(slot[p + 1] == (id, vals));
                assert forall|i: int| 0 <= i < p + 1 implies (#[trigger] slot[i]).0 != id by {
                    if i > 0 {
                        assert(slot.skip(1)[i - 1].0 != id);
                    }
                }
            },
            Option::None => {
                assert forall|i: int| 0 <= i < slot.len() implies (#[trigger] slot[i]).0 != id by {
                    if i > 0 {
                        assert(slot.skip(1)[i - 1].0 != id);
                    }
                }
            },
        }
    } else if slot.len() > 0 {
        assert(slot[0] == (id, slot[0].1));
    }
}

/// The number of records stored across all slots.
pub open spec fn s_total(tbl: SpecSlots) -> nat
    decreases tbl.len(),
{
    if tbl.len() == 0 {
        0
    } else {
        tbl[0].len() + s_total(tbl.skip(1))
    }
}

/// Updating one slot changes the total by the change in that slot alone.
pub proof fn lemma_total_update(tbl: SpecSlots, t: int, slot: Seq<(EntityId, Seq<SpecUval>)>)
    requires
        0 <= t < tbl.len(),
    ensures
        s_total(tbl.update(t, slot)) + tbl[t].len() == s_total(tbl) + slot.len(),
    decreases tbl.len(),
{
    if t == 0 {
        assert(tbl.update(0, slot).skip(1) =~= tbl.skip(1));
    } else {
        lemma_total_update(tbl.skip(1), t - 1, slot);
        assert(tbl.update(t, slot).skip(1) =~= tbl.skip(1).update(t - 1, slot));
        assert(tbl.update(t, slot)[0] == tbl[0]);
    }
}

/// The identifier-indexed, per-type store of unresolved records.
pub struct Table {
    schema: Schema,
    slots: Vec<Vec<TableEntry>>,
    count: usize,
}

impl Table {
    /// The schema this table was built for.
    pub closed spec fn spec_schema(&self) -> Schema {
        self.schema
    }

    /// The model of the table's contents, one sequence of stored records
    /// per declared type.
    pub closed spec fn model(&self) -> SpecSlots {
        Seq::new(self.slots@.len(), |i: int| slot_view(self.slots@[i]@))
    }

    /// The number of records stored, over all types.
    pub closed spec fn entry_count(&self) -> nat {
        self.count as nat
    }

    /// The fuel every resolution starts from: one more than the number of
    /// stored records, so that only a reference cycle can exhaust it.
    pub open spec fn default_fuel(&self) -> nat {
        self.entry_count() + 1
    }

    /// The table's invariant: a well-formed schema, one slot per declared
    /// type, records only in entity slots, at most one record per
    /// identifier in each slot, an exact record count, and every stored
    /// record shaped by its type's declared fields, one value per field,
    /// in declared order.
    pub closed spec fn wf(&self) -> bool {
        &&& self.schema.wf()
        &&& self.slots@.len() == self.schema.len()
        &&& self.count as nat == s_total(self.model())
        &&& forall|t: int|
            #![trigger self.slots@[t]]
            0 <= t < self.slots@.len() ==> {
                &&& (self.schema.is_union(t) ==> self.slots@[t]@.len() == 0)
                &&& forall|p: int, q: int|
                    0 <= p < q < self.slots@[t]@.len() ==> (#[trigger] self.slots@[t]@[p]).id != (
                    #[trigger] self.slots@[t]@[q]).id
                &&& forall|p: int|
                    0 <= p < self.slots@[t]@.len() ==> uvals_wt(
                        self.schema,
                        self.schema.fields_of(t),
                        uvals_view((#[trigger] self.slots@[t]@[p]).vals@),
                    )
            }
    }

    /// Build an empty table for `schema`, or nothing if the schema is not
    /// well formed.
    pub fn new(schema: Schema) -> (r: Option<Table>)
        ensures
            match r {
                Option::Some(tbl) => schema.wf() && tbl.wf() && tbl.spec_schema() == schema
                    && tbl.model().len() == schema.len() && forall|t: int|
                    0 <= t < schema.len() ==> (#[trigger] tbl.model()[t]).len() == 0,
                Option::None => !schema.wf(),
            },
    {
        if !schema.check() {
            return None;
        }
        let n = schema.types.len();
        let mut slots: Vec<Vec<TableEntry>> = Vec::new();
        let mut i: usize = 0;
        while i < n
            invariant
                i <= n,
                slots@.len() == i,
                forall|t: int| 0 <= t < i ==> (#[trigger] slots@[t])@.len() == 0,
            decreases n - i,
        {
            slots.push(Vec::new());
            i += 1;
        }
        let tbl = Table { schema, slots, count: 0 };
        proof {
            assert forall|t: int| 0 <= t < tbl.model().len() implies (#[trigger] tbl.model()[
            t]).len() == 0 by {
                assert(slot_view(tbl.slots@[t]@).len() == 0);
            }
            lemma_total_zero(tbl.model());
        }
        Some(tbl)
    }
}

impl Table {
    /// Decode `rec` against the entity type at index `t` and store the
    /// result under `id`, replacing in place any record already stored
    /// under `id`; a decode failure leaves the table unchanged.
    pub fn add_record(&mut self, t: usize, id: EntityId, rec: &Record) -> (r: Result<(), Error>)
        requires
            old(self).wf(),
            t < old(self).spec_schema().len(),
            old(self).spec_schema().is_entity(t as int),
            old(self).entry_count() < usize::MAX as nat,
        ensures
            final(self).wf(),
            final(self).spec_schema() == old(self).spec_schema(),
            match r {
                Result::Ok(_) => s_decode_record(old(self).spec_schema(), t as int, *rec) is Ok
                    && final(self).model() == old(self).model().update(
                    t as int,
                    s_slot_put(
                        old(self).model()[t as int],
                        id,
                        s_decode_record(old(self).spec_schema(), t as int, *rec)->Ok_0->Fields_0,
                    ),
                ),
                Result::Err(e) => s_decode_record(old(self).spec_schema(), t as int, *rec)
                    == Result::Err::<SpecUval, Error>(e) && final(self).model() == old(self).model(),
            },
    {
        let ghost s = self.schema;
        proof {
            crate::decode::lemma_decode_record_wt(s, t, *rec);
        }
        let dr = decode_record(&self.schema, t, rec);
        let u = match dr {
            Ok(u) => u,
            Err(e) => {
                return Err(e);
            },
        };
        let vals = match u {
            UnresolvedValue::Fields(vs) => vs,
            _ => {
                proof {
                    assert(s_decode_record(s, t as int, *rec) is Ok);
                }
                vstd::pervasive::unreached()
            },
        };
        let ghost old_model = self.model();
        let ghost old_slot = self.model()[t as int];
        let ghost new_pair = (id, uvals_view(vals@));
        proof {
            lemma_slot_find(old_slot, id);
            lemma_slot_put(old_slot, id, new_pair.1);
        }
        // find the first stored record with this identifier, if any
        let mut p: usize = 0;
        let slot_len = self.slots[t].len();
        let mut found: bool = false;
        while p < slot_len && !found
            invariant
                0 <= t < self.slots@.len(),
                slot_len == self.slots@[t as int]@.len(),
                p <= slot_len,
                !found ==> forall|i: int|
                    0 <= i < p ==> (#[trigger] self.slots@[t as int]@[i]).id != id,
                found ==> p < slot_len && self.slots@[t as int]@[p as int].id == id && forall|
                    i: int,
                |
                    0 <= i < p ==> (#[trigger] self.slots@[t as int]@[i]).id != id,
            decreases slot_len - p, if found { 0int } else { 1int },
        {
            if self.slots[t][p].id == id {
                found = true;
            } else {
                p += 1;
            }
        }
        if found {
            let entry = TableEntry { id, vals };
            self.slots[t][p] = entry;
            proof {
                assert(slot_view(self.slots@[t as int]@) =~= slot_view(old(self).slots@[
                    t as int]@).update(p as int, new_pair));
                assert(old_slot[p as int].0 == id);
                assert(s_slot_put(old_slot, id, new_pair.1) == old_slot.update(p as int, new_pair));
                assert(self.model() =~= old_model.update(
                    t as int,
                    s_slot_put(old_slot, id, new_pair.1),
                ));
                lemma_total_update(old_model, t as int, s_slot_put(old_slot, id, new_pair.1));
            }
        } else {
            let entry = TableEntry { id, vals };
            self.slots[t].push(entry);
            self.count = self.count + 1;
            proof {
                assert(!s_slot_contains(old_slot, id));
                assert(slot_view(self.slots@[t as int]@) =~= slot_view(old(self).slots@[
                    t as int]@).push(new_pair));
                assert(s_slot_put(old_slot, id, new_pair.1) == old_slot.push(new_pair));
                assert(self.model() =~= old_model.update(
                    t as int,
                    s_slot_put(old_slot, id, new_pair.1),
                ));
                lemma_total_update(old_model, t as int, s_slot_put(old_slot, id, new_pair.1));
            }
        }
        proof {
            assert(uval_wt(s, FieldKind::Inline(t), SpecUval::Fields(uvals_view(vals@))));
            assert forall|tt: int|
                #![trigger self.slots@[tt]]
                0 <= tt < self.slots@.len() implies {
                &&& (self.schema.is_union(tt) ==> self.slots@[tt]@.len() == 0)
                &&& forall|a: int, b: int|
                    0 <= a < b < self.slots@[tt]@.len() ==> (#[trigger] self.slots@[tt]@[a]).id
                        != (#[trigger] self.slots@[tt]@[b]).id
                &&& forall|p2: int|
                    0 <= p2 < self.slots@[tt]@.len() ==> uvals_wt(
                        self.schema,
                        self.schema.fields_of(tt),
                        uvals_view((#[trigger] self.slots@[tt]@[p2]).vals@),
                    )
            } by {
                if tt != t as int {
                    assert(self.slots@[tt] == old(self).slots@[tt]);
                } else {
                    assert forall|p2: int| 0 <= p2 < self.slots@[tt]@.len() implies uvals_wt(
                        self.schema,
                        self.schema.fields_of(tt),
                        uvals_view((#[trigger] self.slots@[tt]@[p2]).vals@),
                    ) by {
                        if self.slots@[tt]@[p2].vals@ != vals@ {
                            assert(self.slots@[tt]@[p2] == old(self).slots@[tt]@[p2]);
                        }
                    }
                }
            }
        }
        Ok(())
    }
}

impl Table {
    /// Whether the type at index `t` claims identifier `id`.
    #[verifier::loop_isolation(false)]
    fn type_claims(&self, t: usize, id: EntityId) -> (r: bool)
        requires
            self.wf(),
            t < self.spec_schema().len(),
        ensures
            r == s_claims(self.spec_schema(), self.model(), t as int, id),
        decreases t as int,
    {
        match &self.schema.types[t] {
            TypeDef::EntityType(_) => {
                proof {
                    lemma_slot_find(self.model()[t as int], id);
                }
                let slot = &self.slots[t];
                let n = slot.len();
                let mut p: usize = 0;
                while p < n
                    invariant
                        n == slot@.len(),
                        p <= n,
                        forall|i: int| 0 <= i < p ==> (#[trigger] slot@[i]).id != id,
                    decreases n - p,
                {
                    if slot[p].id == id {
                        assert(self.model()[t as int][p as int].0 == id);
                        return true;
                    }
                    p += 1;
                }
                assert forall|i: int| 0 <= i < self.model()[t as int].len() implies (
                #[trigger] self.model()[t as int][i]).0 != id by {
                    assert(self.model()[t as int][i] == entry_view(slot@[i]));
                }
                false
            },
            TypeDef::UnionType(u) => {
                proof {
                    lemma_first_claim(self.spec_schema(), self.model(), t as int, 0, id);
                }
                let n = u.variants.len();
                let mut j: usize = 0;
                while j < n
                    invariant
                        j <= n,
                        forall|i: int|
                            0 <= i < j ==> !s_variant_claims(
                                self.spec_schema(),
                                self.model(),
                                t as int,
                                i,
                                id,
                            ),
                    decreases n - j,
                {
                    match u.variants[j].kind.target() {
                        Some(tt) => {
                            if tt < t {
                                if self.type_claims(tt, id) {
                                    assert(s_variant_claims(
                                        self.spec_schema(),
                                        self.model(),
                                        t as int,
                                        j as int,
                                        id,
                                    ));
                                    return true;
                                }
                            }
                        },
                        None => {},
                    }
                    assert(!s_variant_claims(self.spec_schema(), self.model(), t as int, j as int, id));
                    j += 1;
                }
                false
            },
        }
    }

    /// Resolve a stored field list positionally, left to right, stopping
    /// at the first failure.
    #[verifier::loop_isolation(false)]
    fn resolve_fields(&self, ks: &Vec<FieldKind>, vs: &Vec<UnresolvedValue>, fuel: u128) -> (r:
        Result<Vec<OwnedValue>, Error>)
        requires
            self.wf(),
        ensures
            match r {
                Result::Ok(os) => s_resolve_fields(
                    self.spec_schema(),
                    self.model(),
                    ks@,
                    uvals_view(vs@),
                    fuel as nat,
                ) == Result::Ok::<Seq<SpecOval>, Error>(ovals_view(os@)),
                Result::Err(e) => s_resolve_fields(
                    self.spec_schema(),
                    self.model(),
                    ks@,
                    uvals_view(vs@),
                    fuel as nat,
                ) == Result::Err::<Seq<SpecOval>, Error>(e),
            },
        decreases fuel as nat, 0nat, suvals_size(uvals_view(vs@)), 1nat,
    {
        let ghost s = self.spec_schema();
        let ghost tbl = self.model();
        let ghost kss = ks@;
        let ghost uvs = uvals_view(vs@);
        proof {
            lemma_uvals_view_index(vs@);
        }
        if ks.len() != vs.len() {
            return Err(Error::UnexpectedValue);
        }
        let mut out: Vec<OwnedValue> = Vec::new();
        let mut i: usize = 0;
        proof {
            assert(kss.skip(0) =~= kss);
            assert(uvs.skip(0) =~= uvs);
            assert(ovals_view(out@) =~= Seq::<SpecOval>::empty());
        }
        while i < vs.len()
            invariant
                i <= vs@.len(),
                out@.len() == i,
                match s_resolve_fields(s, tbl, kss.skip(i as int), uvs.skip(i as int), fuel as nat) {
                    Result::Ok(os) => s_resolve_fields(s, tbl, kss, uvs, fuel as nat)
                        == Result::Ok::<Seq<SpecOval>, Error>(ovals_view(out@) + os),
                    Result::Err(er) => s_resolve_fields(s, tbl, kss, uvs, fuel as nat)
                        == Result::Err::<Seq<SpecOval>, Error>(er),
                },
            decreases vs@.len() - i,
        {
            proof {
                crate::resolve::lemma_suvals_size_elem(uvs, i as int);
            }
            let rv = self.resolve_value(&ks[i], &vs[i], fuel);
            proof {
                assert(kss.skip(i as int)[0] == kss[i as int]);
                assert(uvs.skip(i as int)[0] == uvs[i as int]);
                assert(kss.skip(i as int).skip(1) =~= kss.skip(i as int + 1));
                assert(uvs.skip(i as int).skip(1) =~= uvs.skip(i as int + 1));
            }
            match rv {
                Ok(o) => {
                    let ghost old_out = out@;
                    out.push(o);
                    proof {
                        lemma_ovals_view_push(old_out, o);
                        match s_resolve_fields(
                            s,
                            tbl,
                            kss.skip(i as int + 1),
                            uvs.skip(i as int + 1),
                            fuel as nat,
                        ) {
                            Result::Ok(os) => {
                                assert(s_resolve_fields(
                                    s,
                                    tbl,
                                    kss.skip(i as int),
                                    uvs.skip(i as int),
                                    fuel as nat,
                                ) == Result::Ok::<Seq<SpecOval>, Error>(seq![o@] + os));
                                assert(ovals_view(old_out) + (seq![o@] + os) =~= ovals_view(out@)
                                    + os);
                            },
                            Result::Err(_) => {},
                        }
                    }
                },
                Err(e) => {
                    return Err(e);
                },
            }
            i += 1;
        }
        proof {
            assert(kss.skip(i as int) =~= Seq::<FieldKind>::empty());
            assert(uvs.skip(i as int) =~= Seq::<SpecUval>::empty());
            assert(ovals_view(out@) + Seq::<SpecOval>::empty() =~= ovals_view(out@));
        }
        Ok(out)
    }

    /// Resolve one unresolved value against the declared kind.
    #[verifier::loop_isolation(false)]
    fn resolve_value(&self, k: &FieldKind, v: &UnresolvedValue, fuel: u128) -> (r: Result<
        OwnedValue,
        Error,
    >)
        requires
            self.wf(),
        ensures
            ores_view(r) == s_resolve(self.spec_schema(), self.model(), *k, v@, fuel as nat),
        decreases fuel as nat, 0nat, suval_size(v@), 0nat,
    {
        let ghost s = self.spec_schema();
        let ghost tbl = self.model();
        match k {
            FieldKind::Plain => match v {
                UnresolvedValue::Scal(sc) => Ok(OwnedValue::Scal(sc.dup())),
                _ => Err(Error::UnexpectedValue),
            },
            FieldKind::RefTo(t) => match v {
                UnresolvedValue::Ref(id) => {
                    if fuel == 0 {
                        Err(Error::DepthLimit)
                    } else {
                        self.get_owned_fueled(*t, *id, fuel - 1)
                    }
                },
                _ => Err(Error::UnexpectedValue),
            },
            FieldKind::Inline(t) => {
                if *t >= self.slots.len() {
                    return Err(Error::UnexpectedValue);
                }
                match &self.schema.types[*t] {
                    TypeDef::EntityType(e) => match v {
                        UnresolvedValue::Fields(vs) => {
                            proof {
                                lemma_uvals_view_index(vs@);
                            }
                            match self.resolve_fields(&e.fields, vs, fuel) {
                                Ok(os) => Ok(OwnedValue::Fields(os)),
                                Err(er) => Err(er),
                            }
                        },
                        _ => Err(Error::UnexpectedValue),
                    },
                    TypeDef::UnionType(u) => match v {
                        UnresolvedValue::Case(j, payload) => {
                            if *j >= u.variants.len() {
                                return Err(Error::UnexpectedValue);
                            }
                            match self.resolve_value(&u.variants[*j].kind, payload, fuel) {
                                Ok(o) => Ok(OwnedValue::Case(*j, Box::new(o))),
                                Err(er) => Err(er),
                            }
                        },
                        _ => Err(Error::UnexpectedValue),
                    },
                }
            },
            FieldKind::ListOf(inner) => match v {
                UnresolvedValue::Items(vs) => {
                    let ghost uvs = uvals_view(vs@);
                    proof {
                        lemma_uvals_view_index(vs@);
                    }
                    let mut out: Vec<OwnedValue> = Vec::new();
                    let mut i: usize = 0;
                    proof {
                        assert(uvs.skip(0) =~= uvs);
                        assert(ovals_view(out@) =~= Seq::<SpecOval>::empty());
                    }
                    while i < vs.len()
                        invariant
                            i <= vs@.len(),
                            out@.len() == i,
                            match s_resolve_items(s, tbl, **inner, uvs.skip(i as int), fuel as nat) {
                                Result::Ok(os) => s_resolve_items(s, tbl, **inner, uvs, fuel as nat)
                                    == Result::Ok::<Seq<SpecOval>, Error>(ovals_view(out@) + os),
                                Result::Err(er) => s_resolve_items(
                                    s,
                                    tbl,
                                    **inner,
                                    uvs,
                                    fuel as nat,
                                ) == Result::Err::<Seq<SpecOval>, Error>(er),
                            },
                        decreases vs@.len() - i,
                    {
                        proof {
                            crate::resolve::lemma_suvals_size_elem(uvs, i as int);
                        }
                        let rv = self.resolve_value(inner, &vs[i], fuel);
                        proof {
                            assert(uvs.skip(i as int)[0] == uvs[i as int]);
                            assert(uvs.skip(i as int).skip(1) =~= uvs.skip(i as int + 1));
                        }
                        match rv {
                            Ok(o) => {
                                let ghost old_out = out@;
                                out.push(o);
                                proof {
                                    lemma_ovals_view_push(old_out, o);
                                    match s_resolve_items(
                                        s,
                                        tbl,
                                        **inner,
                                        uvs.skip(i as int + 1),
                                        fuel as nat,
                                    ) {
                                        Result::Ok(os) => {
                                            assert(s_resolve_items(
                                                s,
                                                tbl,
                                                **inner,
                                                uvs.skip(i as int),
                                                fuel as nat,
                                            ) == Result::Ok::<Seq<SpecOval>, Error>(
                                                seq![o@] + os,
                                            ));
                                            assert(ovals_view(old_out) + (seq![o@] + os)
                                                =~= ovals_view(out@) + os);
                                        },
                                        Result::Err(_) => {},
                                    }
                                }
                            },
                            Err(e) => {
                                return Err(e);
                            },
                        }
                        i += 1;
                    }
                    proof {
                        assert(uvs.skip(i as int) =~= Seq::<SpecUval>::empty());
                        assert(ovals_view(out@) + Seq::<SpecOval>::empty() =~= ovals_view(out@));
                    }
                    Ok(OwnedValue::Items(out))
                },
                _ => Err(Error::UnexpectedValue),
            },
            FieldKind::OptionalOf(inner) => match v {
                UnresolvedValue::Maybe(o) => match o {
                    Some(b) => match self.resolve_value(inner, b, fuel) {
                        Ok(ov) => Ok(OwnedValue::Maybe(Some(Box::new(ov)))),
                        Err(er) => Err(er),
                    },
                    None => Ok(OwnedValue::Maybe(None)),
                },
                _ => Err(Error::UnexpectedValue),
            },
        }
    }

    /// Resolve the record stored under `id` as the type at index `t`,
    /// spending one unit of fuel per reference hop.
    #[verifier::loop_isolation(false)]
    fn get_owned_fueled(&self, t: usize, id: EntityId, fuel: u128) -> (r: Result<OwnedValue, Error>)
        requires
            self.wf(),
        ensures
            ores_view(r) == s_get_owned(self.spec_schema(), self.model(), t as int, id, fuel as nat),
        decreases fuel as nat, 1nat, t as int, 0nat,
    {
        let ghost s = self.spec_schema();
        let ghost tbl = self.model();
        if t >= self.slots.len() {
            return Err(Error::UnexpectedValue);
        }
        match &self.schema.types[t] {
            TypeDef::EntityType(e) => {
                proof {
                    lemma_slot_find(tbl[t as int], id);
                }
                let slot = &self.slots[t];
                let n = slot.len();
                let mut p: usize = 0;
                while p < n
                    invariant
                        n == slot@.len(),
                        p <= n,
                        forall|i: int| 0 <= i < p ==> (#[trigger] slot@[i]).id != id,
                    decreases n - p,
                {
                    if slot[p].id == id {
                        let entry = &slot[p];
                        proof {
                            assert(tbl[t as int][p as int] == entry_view(slot@[p as int]));
                            assert(s_slot_find(tbl[t as int], id) == Option::Some(
                                uvals_view(entry.vals@),
                            ));
                        }
                        return match self.resolve_fields(&e.fields, &entry.vals, fuel) {
                            Ok(os) => Ok(OwnedValue::Fields(os)),
                            Err(er) => Err(er),
                        };
                    }
                    p += 1;
                }
                assert forall|i: int| 0 <= i < tbl[t as int].len() implies (#[trigger] tbl[
                t as int][i]).0 != id by {
                    assert(tbl[t as int][i] == entry_view(slot@[i]));
                }
                Err(Error::UnknownEntity(id))
            },
            TypeDef::UnionType(u) => {
                proof {
                    lemma_first_claim(s, tbl, t as int, 0, id);
                }
                let n = u.variants.len();
                let mut j: usize = 0;
                while j < n
                    invariant
                        j <= n,
                        forall|i: int|
                            0 <= i < j ==> !s_variant_claims(s, tbl, t as int, i, id),
                    decreases n - j,
                {
                    match u.variants[j].kind.target() {
                        Some(tt) => {
                            if tt < t {
                                if self.type_claims(tt, id) {
                                    assert(s_variant_claims(s, tbl, t as int, j as int, id));
                                    assert(s_first_claim(s, tbl, t as int, 0, id) == Option::Some(
                                        j as int,
                                    ));
                                    return match self.get_owned_fueled(tt, id, fuel) {
                                        Ok(o) => Ok(OwnedValue::Case(j, Box::new(o))),
                                        Err(er) => Err(er),
                                    };
                                }
                            }
                        },
                        None => {},
                    }
                    assert(!s_variant_claims(s, tbl, t as int, j as int, id));
                    j += 1;
                }
                Err(Error::UnknownEntity(id))
            },
        }
    }

    /// Resolve the record stored under `id` as the type at index `t`:
    /// the `get_owned` contract of the table, with the depth guard set so
    /// that only a reference cycle can exhaust it.  Fails with
    /// `UnknownEntity` when no slot of the requested type claims `id`.
    pub fn get_owned(&self, t: usize, id: EntityId) -> (r: Result<OwnedValue, Error>)
        requires
            self.wf(),
            t < self.spec_schema().len(),
        ensures
            ores_view(r) == s_get_owned(
                self.spec_schema(),
                self.model(),
                t as int,
                id,
                self.default_fuel(),
            ),
            !s_claims(self.spec_schema(), self.model(), t as int, id) ==> r == Result::Err::<
                OwnedValue,
                Error,
            >(Error::UnknownEntity(id)),
    {
        let fuel: u128 = (self.count as u128) + 1;
        let r = self.get_owned_fueled(t, id, fuel);
        proof {
            if !s_claims(self.spec_schema(), self.model(), t as int, id) {
                crate::resolve::lemma_get_owned_unknown(
                    self.spec_schema(),
                    self.model(),
                    t as int,
                    id,
                    fuel as nat,
                );
            }
        }
        r
    }

    /// Resolve every record stored for the type at index `t`, one result
    /// per record, in insertion order.
    #[verifier::loop_isolation(false)]
    fn owned_iter_fueled(&self, t: usize, fuel: u128) -> (r: Vec<Result<OwnedValue, Error>>)
        requires
            self.wf(),
        ensures
            rvec_view(r@) == s_owned_iter(self.spec_schema(), self.model(), t as int, fuel as nat),
        decreases fuel as nat, t as int + 1, 2nat, 0nat,
    {
        let ghost s = self.spec_schema();
        let ghost tbl = self.model();
        let mut out: Vec<Result<OwnedValue, Error>> = Vec::new();
        if t >= self.slots.len() {
            proof {
                assert(rvec_view(out@) =~= s_owned_iter(s, tbl, t as int, fuel as nat));
            }
            return out;
        }
        match &self.schema.types[t] {
            TypeDef::EntityType(e) => {
                let slot = &self.slots[t];
                let ghost sv = tbl[t as int];
                let n = slot.len();
                let mut p: usize = 0;
                proof {
                    assert(sv.skip(0) =~= sv);
                    assert(rvec_view(out@) + s_iter_entries(s, tbl, e.fields@, sv, fuel as nat)
                        =~= s_iter_entries(s, tbl, e.fields@, sv, fuel as nat));
                }
                while p < n
                    invariant
                        p <= n,
                        s_iter_entries(s, tbl, e.fields@, sv, fuel as nat) == rvec_view(out@)
                            + s_iter_entries(s, tbl, e.fields@, sv.skip(p as int), fuel as nat),
                    decreases n - p,
                {
                    let entry = &slot[p];
                    proof {
                        assert(sv[p as int] == entry_view(slot@[p as int]));
                    }
                    let rr = self.resolve_fields(&e.fields, &entry.vals, fuel);
                    let wrapped = match rr {
                        Ok(os) => Ok(OwnedValue::Fields(os)),
                        Err(er) => Err(er),
                    };
                    let ghost old_out = out@;
                    out.push(wrapped);
                    proof {
                        assert(sv.skip(p as int)[0] == sv[p as int]);
                        assert(sv.skip(p as int).skip(1) =~= sv.skip(p as int + 1));
                        assert(rvec_view(out@) =~= rvec_view(old_out) + seq![ores_view(wrapped)]);
                        assert(rvec_view(old_out) + (seq![ores_view(wrapped)] + s_iter_entries(
                            s,
                            tbl,
                            e.fields@,
                            sv.skip(p as int + 1),
                            fuel as nat,
                        )) =~= rvec_view(out@) + s_iter_entries(
                            s,
                            tbl,
                            e.fields@,
                            sv.skip(p as int + 1),
                            fuel as nat,
                        ));
                    }
                    p += 1;
                }
                proof {
                    assert(sv.skip(p as int) =~= Seq::<(EntityId, Seq<SpecUval>)>::empty());
                    assert(rvec_view(out@) + Seq::<Result<SpecOval, Error>>::empty() =~= rvec_view(
                        out@,
                    ));
                }
                out
            },
            TypeDef::UnionType(u) => {
                let n = u.variants.len();
                let mut j: usize = 0;
                proof {
                    assert(rvec_view(out@) + s_iter_variants(s, tbl, t as int, 0, fuel as nat)
                        =~= s_iter_variants(s, tbl, t as int, 0, fuel as nat));
                }
                while j < n
                    invariant
                        j <= n,
                        s_iter_variants(s, tbl, t as int, 0, fuel as nat) == rvec_view(out@)
                            + s_iter_variants(s, tbl, t as int, j as int, fuel as nat),
                    decreases n - j,
                {
                    let ghost rest = s_iter_variants(s, tbl, t as int, j as int + 1, fuel as nat);
                    match u.variants[j].kind.target() {
                        Some(tt) if tt < t => {
                            let mut sub = self.owned_iter_fueled(tt, fuel);
                            let ghost sub_full = rvec_view(sub@);
                            let ghost out0 = rvec_view(out@);
                            proof {
                                assert(sub_full.map_values(
                                    |r: Result<SpecOval, Error>| wrap_case(j as int, r),
                                ) + Seq::<Result<SpecOval, Error>>::empty() =~= sub_full.map_values(
                                    |r: Result<SpecOval, Error>| wrap_case(j as int, r),
                                ));
                            }
                            while sub.len() > 0
                                invariant
                                    rvec_view(out@) + rvec_view(sub@).map_values(
                                        |r: Result<SpecOval, Error>| wrap_case(j as int, r),
                                    ) =~= out0 + sub_full.map_values(
                                        |r: Result<SpecOval, Error>| wrap_case(j as int, r),
                                    ),
                                decreases sub@.len(),
                            {
                                let ghost sub_old = sub@;
                                let x = sub.remove(0);
                                let wrapped = match x {
                                    Ok(o) => Ok(OwnedValue::Case(j, Box::new(o))),
                                    Err(er) => Err(er),
                                };
                                let ghost old_out = out@;
                                out.push(wrapped);
                                proof {
                                    assert(sub@ =~= sub_old.skip(1));
                                    assert(ores_view(wrapped) == wrap_case(
                                        j as int,
                                        ores_view(x),
                                    ));
                                    assert(rvec_view(sub_old)[0] == ores_view(x));
                                    assert(rvec_view(sub@) =~= rvec_view(sub_old).skip(1));
                                    assert(rvec_view(out@) =~= rvec_view(old_out) + seq![
                                        ores_view(wrapped)
                                    ]);
                                    assert(rvec_view(old_out) + rvec_view(sub_old).map_values(
                                        |r: Result<SpecOval, Error>| wrap_case(j as int, r),
                                    ) =~= rvec_view(out@) + rvec_view(sub@).map_values(
                                        |r: Result<SpecOval, Error>| wrap_case(j as int, r),
                                    ));
                                }
                            }
                            proof {
                                assert(rvec_view(sub@).map_values(
                                    |r: Result<SpecOval, Error>| wrap_case(j as int, r),
                                ) =~= Seq::<Result<SpecOval, Error>>::empty());
                                assert(rvec_view(out@) =~= out0 + sub_full.map_values(
                                    |r: Result<SpecOval, Error>| wrap_case(j as int, r),
                                ));
                                assert(s_iter_variants(s, tbl, t as int, j as int, fuel as nat)
                                    == sub_full.map_values(
                                    |r: Result<SpecOval, Error>| wrap_case(j as int, r),
                                ) + rest);
                                assert(out0 + (sub_full.map_values(
                                    |r: Result<SpecOval, Error>| wrap_case(j as int, r),
                                ) + rest) =~= rvec_view(out@) + rest);
                            }
                        },
                        _ => {
                            proof {
                                assert(s_iter_variants(s, tbl, t as int, j as int, fuel as nat)
                                    =~= Seq::<Result<SpecOval, Error>>::empty() + rest);
                                assert(Seq::<Result<SpecOval, Error>>::empty() + rest =~= rest);
                            }
                        },
                    }
                    j += 1;
                }
                proof {
                    assert(s_iter_variants(s, tbl, t as int, j as int, fuel as nat) =~= Seq::<
                        Result<SpecOval, Error>,
                    >::empty());
                    assert(rvec_view(out@) + Seq::<Result<SpecOval, Error>>::empty() =~= rvec_view(
                        out@,
                    ));
                }
                out
            },
        }
    }

    /// Resolve every record stored for the type at index `t`: the
    /// `owned_iter` contract of the table.  One result per stored record,
    /// in insertion order; a union chains its variants' slots in declared
    /// order; one failing record does not disturb the others' results.
    pub fn owned_iter(&self, t: usize) -> (r: Vec<Result<OwnedValue, Error>>)
        requires
            self.wf(),
            t < self.spec_schema().len(),
        ensures
            rvec_view(r@) == s_owned_iter(
                self.spec_schema(),
                self.model(),
                t as int,
                self.default_fuel(),
            ),
    {
        let fuel: u128 = (self.count as u128) + 1;
        self.owned_iter_fueled(t, fuel)
    }

    /// Resolve one unresolved value against the declared kind, with the
    /// default depth guard.
    pub fn resolve(&self, k: &FieldKind, u: &UnresolvedValue) -> (r: Result<OwnedValue, Error>)
        requires
            self.wf(),
        ensures
            ores_view(r) == s_resolve(
                self.spec_schema(),
                self.model(),
                *k,
                u@,
                self.default_fuel(),
            ),
    {
        let fuel: u128 = (self.count as u128) + 1;
        self.resolve_value(k, u, fuel)
    }
}

/// A table of empty slots stores nothing.
proof fn lemma_total_zero(tbl: SpecSlots)
    requires
        forall|t: int| 0 <= t < tbl.len() ==> (#[trigger] tbl[t]).len() == 0,
    ensures
        s_total(tbl) == 0,
    decreases tbl.len(),
{
    if tbl.len() > 0 {
        lemma_total_zero(tbl.skip(1));
    }
}

} // verus!
