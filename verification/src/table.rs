//! The table layer: a typed, in-memory mapping from identifier to row.
//!
//! A table holds live rows and tombstones together, keyed by the
//! content-addressed identifier of each row's natural key. Mutations are
//! pure in-memory operations; persistence works through `save`, which
//! renders the table as shard files, and `load`, which reads such files
//! back. The table's logical state is a map from identifier to row model;
//! the representation keeps rows sorted by identifier, which makes saving
//! deterministic.

use vstd::prelude::*;
use crate::ident::all_hex;
use crate::ident::hash_id;
use crate::ident::hash_id_spec;
use crate::ident::id_len_spec;
use crate::ident::id_length_for_capacity;
use crate::row::Row;
use crate::row::RowM;
use crate::row::TableRow;
use crate::row::row_wf;
use crate::row::row_line;
use crate::row::row_parse_spec;
use crate::text::lex_lt;
use crate::ts::Timestamp;
use crate::ts::now_clamped;
use crate::error::StoreError;

verus! {

/// The map an ordered row sequence denotes: each row under its identifier,
/// later rows winning.
pub open spec fn map_of<T: TableRow>(rows: Seq<RowM<T::V>>) -> Map<Seq<char>, RowM<T::V>>
    decreases rows.len(),
{
    if rows.len() == 0 {
        Map::empty()
    } else {
        map_of::<T>(rows.drop_last()).insert(rows.last().id_of(), rows.last())
    }
}

/// No two rows share an identifier.
pub open spec fn ids_distinct<P>(rows: Seq<RowM<P>>) -> bool {
    forall|i: int, j: int|
        0 <= i < j < rows.len() ==> (#[trigger] rows[i].id_of()) != (#[trigger] rows[j].id_of())
}

/// Rows are strictly sorted by identifier.
pub open spec fn ids_sorted<P>(rows: Seq<RowM<P>>) -> bool {
    forall|i: int, j: int|
        0 <= i < j < rows.len() ==> lex_lt(#[trigger] rows[i].id_of(), #[trigger] rows[j].id_of())
}

/// In a map built from distinct rows, each row stands under its own
/// identifier and nothing else is in the map.
pub proof fn lemma_map_of_props<T: TableRow>(rows: Seq<RowM<T::V>>)
    requires
        ids_distinct(rows),
    ensures
        forall|i: int|
            0 <= i < rows.len() ==> map_of::<T>(rows).contains_key(
                (#[trigger] rows[i]).id_of(),
            ) && map_of::<T>(rows)[rows[i].id_of()] == rows[i],
        forall|id: Seq<char>|
            #[trigger] map_of::<T>(rows).contains_key(id) ==> exists|i: int|
                0 <= i < rows.len() && (#[trigger] rows[i]).id_of() == id,
    decreases rows.len(),
{
    if rows.len() > 0 {
        let dl = rows.drop_last();
        assert(ids_distinct(dl)) by {
            assert(forall|i: int| 0 <= i < dl.len() ==> dl[i] == #[trigger] rows[i]);
        }
        lemma_map_of_props::<T>(dl);
        let last = rows.last();
        assert(forall|i: int| 0 <= i < dl.len() ==> dl[i] == #[trigger] rows[i]);
        assert forall|i: int| 0 <= i < rows.len() implies map_of::<T>(rows).contains_key(
            (#[trigger] rows[i]).id_of(),
        ) && map_of::<T>(rows)[rows[i].id_of()] == rows[i] by {
            if i == rows.len() - 1 {
            } else {
                assert(rows[i] == dl[i]);
                assert(rows[i].id_of() != last.id_of());
            }
        }
        assert forall|id: Seq<char>| #[trigger] map_of::<T>(rows).contains_key(id) implies exists|
            i: int,
        | 0 <= i < rows.len() && (#[trigger] rows[i]).id_of() == id by {
            if id == last.id_of() {
                assert(rows[rows.len() - 1].id_of() == id);
            } else {
                assert(map_of::<T>(dl).contains_key(id));
                let i = choose|i: int| 0 <= i < dl.len() && (#[trigger] dl[i]).id_of() == id;
                assert(rows[i].id_of() == id);
            }
        }
    }
}

/// Replacing the row at `i` by one with the same identifier updates the
/// map at that identifier.
pub proof fn lemma_map_of_update<T: TableRow>(rows: Seq<RowM<T::V>>, i: int, r: RowM<T::V>)
    requires
        ids_distinct(rows),
        0 <= i < rows.len(),
        r.id_of() == rows[i].id_of(),
    ensures
        map_of::<T>(rows.update(i, r)) == map_of::<T>(rows).insert(r.id_of(), r),
    decreases rows.len(),
{
    let u = rows.update(i, r);
    let dl = rows.drop_last();
    assert(ids_distinct(dl)) by {
        assert(forall|k: int| 0 <= k < dl.len() ==> dl[k] == #[trigger] rows[k]);
    }
    if i == rows.len() - 1 {
        assert(u.drop_last() =~= dl);
        assert(u.last() == r);
        assert(map_of::<T>(u) == map_of::<T>(dl).insert(r.id_of(), r));
        assert(map_of::<T>(rows).insert(r.id_of(), r) =~= map_of::<T>(dl).insert(r.id_of(), r));
    } else {
        assert(u.drop_last() =~= dl.update(i, r));
        assert(u.last() == rows.last());
        assert(dl[i] == rows[i]);
        lemma_map_of_update::<T>(dl, i, r);
        let last = rows.last();
        assert(r.id_of() != last.id_of()) by {
            assert(rows[i].id_of() != rows[rows.len() - 1].id_of());
        }
        assert(map_of::<T>(u) == map_of::<T>(dl).insert(r.id_of(), r).insert(
            last.id_of(),
            last,
        ));
        assert(map_of::<T>(dl).insert(r.id_of(), r).insert(last.id_of(), last)
            =~= map_of::<T>(dl).insert(last.id_of(), last).insert(r.id_of(), r));
    }
}

/// Inserting a row with a fresh identifier at any position adds it to the
/// map.
pub proof fn lemma_map_of_insert<T: TableRow>(rows: Seq<RowM<T::V>>, j: int, r: RowM<T::V>)
    requires
        ids_distinct(rows),
        0 <= j <= rows.len(),
        forall|i: int| 0 <= i < rows.len() ==> (#[trigger] rows[i].id_of()) != r.id_of(),
    ensures
        map_of::<T>(rows.insert(j, r)) == map_of::<T>(rows).insert(r.id_of(), r),
    decreases rows.len(),
{
    let u = rows.insert(j, r);
    if j == rows.len() {
        assert(u.drop_last() =~= rows);
        assert(u.last() == r);
    } else {
        let dl = rows.drop_last();
        let last = rows.last();
        assert(ids_distinct(dl)) by {
            assert(forall|k: int| 0 <= k < dl.len() ==> dl[k] == #[trigger] rows[k]);
        }
        assert(forall|i: int| 0 <= i < dl.len() ==> (#[trigger] dl[i].id_of()) != r.id_of());
        assert(u.drop_last() =~= dl.insert(j, r));
        assert(u.last() == last);
        lemma_map_of_insert::<T>(dl, j, r);
        assert(last.id_of() != r.id_of()) by {
            assert(rows[rows.len() - 1].id_of() != r.id_of());
        }
        assert(map_of::<T>(u) == map_of::<T>(dl).insert(r.id_of(), r).insert(
            last.id_of(),
            last,
        ));
        assert(map_of::<T>(dl).insert(r.id_of(), r).insert(last.id_of(), last)
            =~= map_of::<T>(dl).insert(last.id_of(), last).insert(r.id_of(), r));
    }
}

/// Strict sortedness gives distinct identifiers.
pub proof fn lemma_sorted_distinct<P>(rows: Seq<RowM<P>>)
    requires
        ids_sorted(rows),
    ensures
        ids_distinct(rows),
{
    assert forall|i: int, j: int| 0 <= i < j < rows.len() implies (#[trigger] rows[i].id_of())
        != (#[trigger] rows[j].id_of()) by {
        crate::text::lemma_lex_asymmetric(rows[i].id_of(), rows[j].id_of());
    }
}

/// A typed table: an in-memory mapping from identifier to row, loaded
/// from and saved to a directory of shard files.
pub struct Table<T> {
    rows: Vec<Row<T>>,
    shard_characters: usize,
    id_length: usize,
}

/// Whether the map holds a live row with this payload at this identifier.
pub open spec fn live_with<P>(m: Map<Seq<char>, RowM<P>>, id: Seq<char>, p: P) -> bool {
    m.contains_key(id) && match m[id] {
        RowM::Live { payload, .. } => payload == p,
        RowM::Tombstone { .. } => false,
    }
}

/// Whether the map holds a live row at this identifier.
pub open spec fn live_at<P>(m: Map<Seq<char>, RowM<P>>, id: Seq<char>) -> bool {
    m.contains_key(id) && (m[id] matches RowM::Live { .. })
}

impl<T: TableRow> Table<T> {
    /// The rows in representation order, as models.
    pub closed spec fn rows_model(&self) -> Seq<RowM<T::V>> {
        self.rows.deep_view()
    }

    /// The logical state: each row under its identifier.
    pub open spec fn model(&self) -> Map<Seq<char>, RowM<T::V>> {
        map_of::<T>(self.rows_model())
    }

    /// The identifier length of this table.
    pub closed spec fn id_length_spec(&self) -> nat {
        self.id_length as nat
    }

    /// The shard width of this table.
    pub closed spec fn shard_chars_spec(&self) -> nat {
        self.shard_characters as nat
    }

    /// The identifier a payload would be stored under.
    pub open spec fn id_spec(&self, m: T::V) -> Seq<char> {
        hash_id_spec(T::key_of(m), self.id_length_spec())
    }

    /// The table invariant: constants derived from the record type, every
    /// row persistable, rows strictly sorted by identifier.
    pub closed spec fn wf(&self) -> bool {
        &&& self.id_length as nat == id_len_spec(T::capacity_spec())
        &&& self.id_length <= 64
        &&& self.shard_characters as nat == T::shard_chars_spec()
        &&& forall|i: int|
            0 <= i < self.rows_model().len() ==> row_wf::<T>(#[trigger] self.rows_model()[i])
        &&& ids_sorted(self.rows_model())
    }

    /// The invariant pins the table's constants to the record type: any
    /// two well-formed tables of one type share the shard width and the
    /// capacity-derived identifier length.
    pub proof fn lemma_wf_constants(&self)
        requires
            self.wf(),
        ensures
            self.shard_chars_spec() == T::shard_chars_spec(),
            self.id_length_spec() == id_len_spec(T::capacity_spec()),
            self.id_length_spec() <= 64,
    {
    }

    /// An empty table for this record type.
    pub fn new() -> (r: Table<T>)
        ensures
            r.wf(),
            r.model() == Map::<Seq<char>, RowM<T::V>>::empty(),
            r.rows_model().len() == 0,
    {
        let cap = T::expected_capacity();
        let id_length = id_length_for_capacity(cap);
        proof {
            assert(T::capacity_spec() <= 18_446_744_073_709_551_615nat);
            lemma_id_len_at_most_64(T::capacity_spec());
        }
        Table { rows: Vec::new(), shard_characters: T::shard_chars(), id_length }
    }

    /// Find the position of the row with this identifier, if present.
    fn find_row(&self, id: &str) -> (r: Option<usize>)
        requires
            self.wf(),
        ensures
            match r {
                Some(i) => i < self.rows_model().len() && self.rows_model()[i as int].id_of()
                    == id@,
                None => forall|i: int|
                    0 <= i < self.rows_model().len() ==> (#[trigger] self.rows_model()[i]).id_of() != id@,
            },
    {
        let mut i: usize = 0;
        while i < self.rows.len()
            invariant
                i <= self.rows.len(),
                forall|k: int|
                    0 <= k < i ==> (#[trigger] self.rows_model()[k]).id_of() != id@,
            decreases self.rows.len() - i,
        {
            if crate::text::str_eq(self.rows[i].id(), id) {
                proof {
                    assert(self.rows_model()[i as int] == self.rows@[i as int].deep_view());
                }
                return Some(i);
            }
            proof {
                assert(self.rows_model()[i as int] == self.rows@[i as int].deep_view());
            }
            i = i + 1;
        }
        None
    }

    /// Find the position where a row with this identifier belongs: the
    /// first position whose identifier is not smaller.
    fn insert_pos(&self, id: &str) -> (r: usize)
        requires
            self.wf(),
        ensures
            r <= self.rows_model().len(),
            forall|k: int|
                0 <= k < r ==> lex_lt((#[trigger] self.rows_model()[k]).id_of(), id@),
            forall|k: int|
                r <= k < self.rows_model().len() ==> !lex_lt(
                    (#[trigger] self.rows_model()[k]).id_of(),
                    id@,
                ),
    {
        let mut i: usize = 0;
        while i < self.rows.len()
            invariant
                self.wf(),
                i <= self.rows.len(),
                forall|k: int|
                    0 <= k < i ==> lex_lt((#[trigger] self.rows_model()[k]).id_of(), id@),
            decreases self.rows.len() - i,
        {
            proof {
                assert(self.rows_model()[i as int] == self.rows@[i as int].deep_view());
            }
            if !crate::text::str_lt(self.rows[i].id(), id) {
                proof {
                    assert forall|k: int|
                        i as int <= k < self.rows_model().len() implies !lex_lt(
                        (#[trigger] self.rows_model()[k]).id_of(),
                        id@,
                    ) by {
                        let a = self.rows_model()[i as int].id_of();
                        let b = self.rows_model()[k].id_of();
                        if k > i as int {
                            assert(ids_sorted(self.rows_model()));
                            assert(lex_lt(
                                self.rows_model()[i as int].id_of(),
                                self.rows_model()[k].id_of(),
                            ));
                            if lex_lt(b, id@) {
                                crate::text::lemma_lex_transitive(a, b, id@);
                            }
                        }
                    }
                }
                return i;
            }
            i = i + 1;
        }
        self.rows.len()
    }

    /// The identifier a record would be stored under, without mutating
    /// the table.
    pub fn id_of(&self, item: &T) -> (r: String)
        requires
            self.wf(),
        ensures
            r@ == self.id_spec(item.deep_view()),
            r@.len() == self.id_length_spec(),
            all_hex(r@),
    {
        let key = item.key();
        hash_id(key.as_str(), self.id_length)
    }

    /// Insert or refresh a record at an explicit time. When an identical
    /// payload is already live under the same identifier nothing changes —
    /// in particular its change time is kept. Otherwise the record becomes
    /// live with `now` as its change time, replacing any previous row.
    pub fn upsert_at(&mut self, item: T, now: Timestamp)
        requires
            old(self).wf(),
            T::payload_wf(item.deep_view()),
            now.wf(),
        ensures
            final(self).wf(),
            final(self).id_length_spec() == old(self).id_length_spec(),
            final(self).shard_chars_spec() == old(self).shard_chars_spec(),
            ({
                let id = old(self).id_spec(item.deep_view());
                if live_with(old(self).model(), id, item.deep_view()) {
                    final(self).model() == old(self).model() && final(self).rows_model() == old(self).rows_model()
                } else {
                    final(self).model() == old(self).model().insert(
                        id,
                        RowM::Live {
                            id: id,
                            payload: item.deep_view(),
                            updated_at: Some(now),
                        },
                    )
                }
            }),
    {
        proof {
            lemma_sorted_distinct(self.rows_model());
            lemma_map_of_props::<T>(self.rows_model());
        }
        let key = item.key();
        let id = hash_id(key.as_str(), self.id_length);
        let ghost idv = id@;
        match self.find_row(id.as_str()) {
            Some(i) => {
                let same = match &self.rows[i] {
                    Row::Live { inner, .. } => inner.same_payload(&item),
                    Row::Tombstone { .. } => false,
                };
                proof {
                    assert(self.rows_model()[i as int] == self.rows@[i as int].deep_view());
                }
                if same {
                    proof {
                        assert(live_with(self.model(), idv, item.deep_view()));
                    }
                    return ;
                }
                let row = Row::Live { id, inner: item, updated_at: Some(now) };
                let ghost rm = row.deep_view();
                self.rows[i] = row;
                proof {
                    let orows = old(self).rows_model();
                    assert(self.rows_model() =~= orows.update(i as int, rm));
                    lemma_map_of_update::<T>(orows, i as int, rm);
                    assert(!live_with(old(self).model(), idv, item.deep_view()));
                    assert(ids_sorted(self.rows_model())) by {
                        assert(forall|k: int|
                            0 <= k < orows.len() ==> (#[trigger] self.rows_model()[k]).id_of() == orows[k].id_of());
                    }
                }
            },
            None => {
                let pos = self.insert_pos(id.as_str());
                let row = Row::Live { id, inner: item, updated_at: Some(now) };
                let ghost rm = row.deep_view();
                self.rows.insert(pos, row);
                proof {
                    let orows = old(self).rows_model();
                    assert(self.rows_model() =~= orows.insert(pos as int, rm));
                    lemma_map_of_insert::<T>(orows, pos as int, rm);
                    assert(!old(self).model().contains_key(idv));
                    assert(!live_with(old(self).model(), idv, item.deep_view()));
                    assert(ids_sorted(self.rows_model())) by {
                        let nrows = self.rows_model();
                        assert forall|a: int, b: int| 0 <= a < b < nrows.len() implies lex_lt(
                            (#[trigger] nrows[a]).id_of(),
                            (#[trigger] nrows[b]).id_of(),
                        ) by {
                            let p = pos as int;
                            if a < p && b == p {
                                assert(nrows[a] == orows[a]);
                            } else if a == p && b > p {
                                assert(nrows[b] == orows[b - 1]);
                                let obid = orows[b - 1].id_of();
                                assert(!lex_lt(obid, idv));
                                crate::text::lemma_lex_total(obid, idv);
                                assert(obid != idv) by {
                                    assert(orows[b - 1].id_of() != idv);
                                }
                                assert(lex_lt(idv, obid));
                            } else if b < p {
                                assert(nrows[a] == orows[a] && nrows[b] == orows[b]);
                            } else if a > p {
                                assert(nrows[a] == orows[a - 1] && nrows[b] == orows[b - 1]);
                            } else {
                                assert(a < p && b > p);
                                assert(nrows[a] == orows[a] && nrows[b] == orows[b - 1]);
                                assert(lex_lt(orows[a].id_of(), idv));
                                let obid = orows[b - 1].id_of();
                                assert(!lex_lt(obid, idv));
                                crate::text::lemma_lex_total(obid, idv);
                                if obid == idv {
                                    assert(orows[b - 1].id_of() != idv);
                                }
                                crate::text::lemma_lex_transitive(
                                    orows[a].id_of(),
                                    idv,
                                    obid,
                                );
                            }
                        }
                    }
                }
            },
        }
    }

    /// Insert or refresh a record, stamped with the current time.
    pub fn upsert(&mut self, item: T)
        requires
            old(self).wf(),
            T::payload_wf(item.deep_view()),
        ensures
            final(self).wf(),
            final(self).id_length_spec() == old(self).id_length_spec(),
            final(self).shard_chars_spec() == old(self).shard_chars_spec(),
            ({
                let id = old(self).id_spec(item.deep_view());
                if live_with(old(self).model(), id, item.deep_view()) {
                    final(self).model() == old(self).model() && final(self).rows_model() == old(self).rows_model()
                } else {
                    exists|t: Timestamp|
                        t.wf() && final(self).model() == old(self).model().insert(
                            id,
                            RowM::Live {
                                id: id,
                                payload: item.deep_view(),
                                updated_at: Some(t),
                            },
                        )
                }
            }),
    {
        let now = now_clamped();
        self.upsert_at(item, now);
    }

    /// Delete the record with this natural key at an explicit time: a live
    /// row becomes a tombstone and its identifier is returned. Absent or
    /// already tombstoned identifiers are reported as not found and leave
    /// the table unchanged.
    pub fn delete_at(&mut self, key: &str, now: Timestamp) -> (r: Option<String>)
        requires
            old(self).wf(),
            now.wf(),
        ensures
            final(self).wf(),
            final(self).id_length_spec() == old(self).id_length_spec(),
            final(self).shard_chars_spec() == old(self).shard_chars_spec(),
            ({
                let id = hash_id_spec(key@, old(self).id_length_spec());
                if live_at(old(self).model(), id) {
                    match r {
                        Some(s) => s@ == id && final(self).model() == old(self).model().insert(id, RowM::Tombstone { id: id, deleted_at: now }),
                        None => false,
                    }
                } else {
                    r is None && final(self).model() == old(self).model() && final(self).rows_model() == old(self).rows_model()
                }
            }),
    {
        proof {
            lemma_sorted_distinct(self.rows_model());
            lemma_map_of_props::<T>(self.rows_model());
        }
        let id = hash_id(key, self.id_length);
        let ghost idv = id@;
        match self.find_row(id.as_str()) {
            Some(i) => {
                let is_live = match &self.rows[i] {
                    Row::Live { .. } => true,
                    Row::Tombstone { .. } => false,
                };
                proof {
                    assert(self.rows_model()[i as int] == self.rows@[i as int].deep_view());
                }
                if !is_live {
                    proof {
                        assert(!live_at(self.model(), idv));
                    }
                    return None;
                }
                let out = id.clone();
                let row = Row::Tombstone { id, deleted_at: now };
                let ghost rm = row.deep_view();
                self.rows[i] = row;
                proof {
                    let orows = old(self).rows_model();
                    assert(self.rows_model() =~= orows.update(i as int, rm));
                    lemma_map_of_update::<T>(orows, i as int, rm);
                    assert(ids_sorted(self.rows_model())) by {
                        assert(forall|k: int|
                            0 <= k < orows.len() ==> (#[trigger] self.rows_model()[k]).id_of() == orows[k].id_of());
                    }
                }
                Some(out)
            },
            None => {
                proof {
                    assert(!self.model().contains_key(idv));
                }
                None
            },
        }
    }

    /// Delete the record with this natural key, stamping the tombstone
    /// with the current time.
    pub fn delete(&mut self, key: &str) -> (r: Option<String>)
        requires
            old(self).wf(),
        ensures
            final(self).wf(),
            final(self).id_length_spec() == old(self).id_length_spec(),
            final(self).shard_chars_spec() == old(self).shard_chars_spec(),
            ({
                let id = hash_id_spec(key@, old(self).id_length_spec());
                if live_at(old(self).model(), id) {
                    match r {
                        Some(s) => s@ == id && exists|t: Timestamp|
                            t.wf() && final(self).model() == old(self).model().insert(
                                id,
                                RowM::Tombstone { id: id, deleted_at: t },
                            ),
                        None => false,
                    }
                } else {
                    r is None && final(self).model() == old(self).model() && final(self).rows_model() == old(self).rows_model()
                }
            }),
    {
        let now = now_clamped();
        self.delete_at(key, now)
    }

    /// The payloads of all live rows, in identifier order. Tombstones are
    /// not observable here.
    pub fn items(&self) -> (r: Vec<T>)
        requires
            self.wf(),
        ensures
            r.deep_view() == live_payloads::<T>(self.rows_model()),
    {
        let mut out: Vec<T> = Vec::new();
        let mut i: usize = 0;
        proof {
            assert(self.rows_model().take(0) =~= Seq::<RowM<T::V>>::empty());
        }
        while i < self.rows.len()
            invariant
                i <= self.rows.len(),
                out.deep_view() == live_payloads::<T>(self.rows_model().take(i as int)),
            decreases self.rows.len() - i,
        {
            let ghost before = out.deep_view();
            match &self.rows[i] {
                Row::Live { inner, .. } => {
                    out.push(inner.dup());
                },
                Row::Tombstone { .. } => {},
            }
            proof {
                let rm = self.rows_model();
                assert(rm[i as int] == self.rows@[i as int].deep_view());
                assert(rm.take(i + 1) =~= rm.take(i as int).push(rm[i as int]));
                assert(rm.take(i + 1).drop_last() =~= rm.take(i as int));
                match rm[i as int] {
                    RowM::Live { payload, .. } => {
                        assert(out.deep_view() =~= before.push(payload));
                    },
                    RowM::Tombstone { .. } => {
                        assert(out.deep_view() =~= before);
                    },
                }
            }
            i = i + 1;
        }
        proof {
            assert(self.rows_model().take(self.rows_model().len() as int)
                =~= self.rows_model());
        }
        out
    }
}

/// The payloads of the live rows of a row sequence, in order.
pub open spec fn live_payloads<T: TableRow>(rows: Seq<RowM<T::V>>) -> Seq<T::V>
    decreases rows.len(),
{
    if rows.len() == 0 {
        Seq::empty()
    } else {
        live_payloads::<T>(rows.drop_last()) + match rows.last() {
            RowM::Live { payload, .. } => seq![payload],
            RowM::Tombstone { .. } => Seq::empty(),
        }
    }
}

/// Identifier lengths fit the identifier function's 64-digit limit.
proof fn lemma_id_len_at_most_64(k: nat)
    requires
        k <= 18_446_744_073_709_551_615nat,
    ensures
        id_len_spec(k) <= 64,
{
    if k > 1 {
        crate::ident::lemma_pow16_values();
        assert(500 * k * k
            <= 170_141_183_460_469_231_713_240_559_642_174_554_112_500nat) by (nonlinear_arith)
            requires k <= 18_446_744_073_709_551_615nat;
        crate::ident::lemma_log16_ceil_bounded(500 * k * k, 35nat);
    }
}

/// Whether a row is a tombstone.
pub open spec fn is_tomb<P>(r: RowM<P>) -> bool {
    r matches RowM::Tombstone { .. }
}

/// Order on merge stamps: a missing stamp counts as earliest.
pub open spec fn stamp_le(a: Option<Timestamp>, b: Option<Timestamp>) -> bool {
    match a {
        Option::None => true,
        Option::Some(x) => match b {
            Option::None => false,
            Option::Some(y) => x.le_spec(&y),
        },
    }
}

/// The merge order on rows: by stamp, and on equal stamps a tombstone
/// ranks above a live row, so that a deletion no earlier than a change
/// wins.
pub open spec fn rank_le<P>(a: RowM<P>, b: RowM<P>) -> bool {
    if a.stamp_of() == b.stamp_of() {
        !is_tomb(a) || is_tomb(b)
    } else {
        stamp_le(a.stamp_of(), b.stamp_of())
    }
}

/// Last-writer-wins choice between the local row and a remote row: the
/// remote row is adopted only when it ranks strictly above the local one,
/// so ties keep the local row.
pub open spec fn merge_row<P>(local: RowM<P>, remote: RowM<P>) -> RowM<P> {
    if rank_le(remote, local) {
        local
    } else {
        remote
    }
}

/// Last-writer-wins reconciliation of a remote snapshot into the local
/// state: rows present on both sides are decided by `merge_row`, rows
/// present on one side only are kept.
pub open spec fn merge_spec<P>(
    local: Map<Seq<char>, RowM<P>>,
    remote: Map<Seq<char>, RowM<P>>,
) -> Map<Seq<char>, RowM<P>> {
    Map::new(
        |id: Seq<char>| local.contains_key(id) || remote.contains_key(id),
        |id: Seq<char>|
            if local.contains_key(id) && remote.contains_key(id) {
                merge_row(local[id], remote[id])
            } else if local.contains_key(id) {
                local[id]
            } else {
                remote[id]
            },
    )
}

/// The merge order is total.
pub proof fn lemma_rank_total<P>(a: RowM<P>, b: RowM<P>)
    ensures
        rank_le(a, b) || rank_le(b, a),
{
}

/// The merge order is transitive.
pub proof fn lemma_rank_trans<P>(a: RowM<P>, b: RowM<P>, c: RowM<P>)
    requires
        rank_le(a, b),
        rank_le(b, c),
    ensures
        rank_le(a, c),
{
}

/// The row choice is associative.
proof fn lemma_merge_row_assoc<P>(a: RowM<P>, b: RowM<P>, c: RowM<P>)
    ensures
        merge_row(a, merge_row(b, c)) == merge_row(merge_row(a, b), c),
{
    if rank_le(c, b) {
        if rank_le(b, a) {
            lemma_rank_trans(c, b, a);
        }
    } else {
        if !rank_le(b, a) {
            if rank_le(c, a) {
                lemma_rank_total(b, a);
                lemma_rank_trans(c, a, b);
            }
        }
    }
}

/// Merging is idempotent: merging a state with itself changes nothing,
/// and merging the same remote snapshot twice is a no-op.
pub proof fn lemma_merge_idempotent<P>(
    a: Map<Seq<char>, RowM<P>>,
    b: Map<Seq<char>, RowM<P>>,
)
    ensures
        merge_spec(a, a) =~= a,
        merge_spec(merge_spec(a, b), b) =~= merge_spec(a, b),
{
    assert forall|id: Seq<char>| #[trigger] merge_spec(a, a).contains_key(id)
        == a.contains_key(id) && (a.contains_key(id) ==> merge_spec(a, a)[id] == a[id]) by {}
    let ab = merge_spec(a, b);
    assert forall|id: Seq<char>| #[trigger] ab.contains_key(id) && b.contains_key(id) implies
        merge_row(ab[id], b[id]) == ab[id] by {
        if a.contains_key(id) {
            if !rank_le(b[id], a[id]) {
            }
        }
    }
}

/// Merging is associative: reconciling snapshots in either grouping gives
/// the same state.
pub proof fn lemma_merge_associative<P>(
    a: Map<Seq<char>, RowM<P>>,
    b: Map<Seq<char>, RowM<P>>,
    c: Map<Seq<char>, RowM<P>>,
)
    ensures
        merge_spec(a, merge_spec(b, c)) =~= merge_spec(merge_spec(a, b), c),
{
    let l = merge_spec(a, merge_spec(b, c));
    let r = merge_spec(merge_spec(a, b), c);
    assert forall|id: Seq<char>| #[trigger] l.contains_key(id) == r.contains_key(id) && (
        l.contains_key(id) ==> l[id] == r[id]) by {
        if a.contains_key(id) && b.contains_key(id) && c.contains_key(id) {
            lemma_merge_row_assoc(a[id], b[id], c[id]);
        }
    }
}

/// One remote row folded into a merge: merging against a snapshot
/// extended by a fresh identifier updates just that identifier.
proof fn lemma_merge_insert<P>(
    m: Map<Seq<char>, RowM<P>>,
    rm: Map<Seq<char>, RowM<P>>,
    id: Seq<char>,
    r: RowM<P>,
)
    requires
        !rm.contains_key(id),
        r.id_of() == id,
    ensures
        merge_spec(m, rm.insert(id, r)) =~= merge_spec(m, rm).insert(
            id,
            if m.contains_key(id) {
                merge_row(m[id], r)
            } else {
                r
            },
        ),
{
}

impl<T: TableRow> Table<T> {
    /// Decide whether a remote row replaces the local row.
    fn remote_wins(local: &Row<T>, remote: &Row<T>) -> (r: bool)
        ensures
            r == !rank_le(remote.deep_view(), local.deep_view()),
    {
        let ls = match local {
            Row::Tombstone { deleted_at, .. } => Some(*deleted_at),
            Row::Live { updated_at, .. } => *updated_at,
        };
        let rs = match remote {
            Row::Tombstone { deleted_at, .. } => Some(*deleted_at),
            Row::Live { updated_at, .. } => *updated_at,
        };
        let local_tomb = match local {
            Row::Tombstone { .. } => true,
            Row::Live { .. } => false,
        };
        let remote_tomb = match remote {
            Row::Tombstone { .. } => true,
            Row::Live { .. } => false,
        };
        let stamps_equal = match (ls, rs) {
            (Option::None, Option::None) => true,
            (Option::Some(x), Option::Some(y)) => x.secs == y.secs && x.nanos == y.nanos,
            _ => false,
        };
        if stamps_equal {
            remote_tomb && !local_tomb
        } else {
            let remote_le_local = match rs {
                Option::None => true,
                Option::Some(y) => match ls {
                    Option::None => false,
                    Option::Some(x) => y.le(&x),
                },
            };
            !remote_le_local
        }
    }

    /// Reconcile a remote snapshot into this table, last writer wins.
    /// Rows present only remotely are adopted; rows present only locally
    /// are kept; rows present on both sides are decided by their stamps,
    /// ties keeping the local row.
    pub fn merge_remote(&mut self, remote: Vec<Row<T>>)
        requires
            old(self).wf(),
            ids_distinct(remote.deep_view()),
            forall|i: int|
                0 <= i < remote.deep_view().len() ==> row_wf::<T>(
                    #[trigger] remote.deep_view()[i],
                ),
        ensures
            final(self).wf(),
            final(self).id_length_spec() == old(self).id_length_spec(),
            final(self).shard_chars_spec() == old(self).shard_chars_spec(),
            final(self).model() == merge_spec(
                old(self).model(),
                map_of::<T>(remote.deep_view()),
            ),
    {
        let ghost rall = remote.deep_view();
        let mut i: usize = 0;
        proof {
            assert(map_of::<T>(rall.take(0)) =~= Map::<Seq<char>, RowM<T::V>>::empty());
            assert(merge_spec(old(self).model(), map_of::<T>(rall.take(0)))
                =~= old(self).model());
        }
        let rn = remote.len();
        while i < rn
            invariant
                i <= rn,
                rn == rall.len(),
                remote.deep_view() == rall,
                rn == remote.len(),
                self.wf(),
                self.id_length_spec() == old(self).id_length_spec(),
                self.shard_chars_spec() == old(self).shard_chars_spec(),
                ids_distinct(rall),
                forall|k: int| 0 <= k < rall.len() ==> row_wf::<T>(#[trigger] rall[k]),
                self.model() == merge_spec(old(self).model(), map_of::<T>(rall.take(i as int))),
            decreases rn - i,
        {
            let rrow = remote[i].dup_row();
            let ghost rm = rrow.deep_view();
            proof {
                assert(rall[i as int] == remote.deep_view()[i as int]);
                assert(rm == rall[i as int]);
                lemma_sorted_distinct(self.rows_model());
                lemma_map_of_props::<T>(self.rows_model());
            }
            let ghost pre = self.model();
            let ghost idv = rm.id_of();
            // The remote identifier is fresh among the rows already folded.
            proof {
                let tk = rall.take(i as int);
                assert(ids_distinct(tk)) by {
                    assert(forall|k: int| 0 <= k < tk.len() ==> tk[k] == #[trigger] rall[k]);
                }
                lemma_map_of_props::<T>(tk);
                if map_of::<T>(tk).contains_key(idv) {
                    let k = choose|k: int|
                        0 <= k < tk.len() && (#[trigger] tk[k]).id_of() == idv;
                    assert(rall[k].id_of() == rall[i as int].id_of());
                    assert(false);
                }
                // Whatever the old model holds at this identifier survives
                // into the accumulated merge unchanged.
                if old(self).model().contains_key(idv) {
                    assert(pre.contains_key(idv) && pre[idv] == old(self).model()[idv]);
                } else {
                    assert(!pre.contains_key(idv));
                }
            }
            let id_owned = match &rrow {
                Row::Tombstone { id, .. } => id.clone(),
                Row::Live { id, .. } => id.clone(),
            };
            match self.find_row(id_owned.as_str()) {
                Some(j) => {
                    proof {
                        assert(self.rows_model()[j as int] == self.rows@[j as int].deep_view());
                    }
                    let wins = Self::remote_wins(&self.rows[j], &rrow);
                    let ghost orows = self.rows_model();
                    let ghost lrow = self.rows_model()[j as int];
                    if wins {
                        self.rows[j] = rrow;
                        proof {
                            assert(self.rows_model() =~= orows.update(j as int, rm));
                            lemma_map_of_update::<T>(orows, j as int, rm);
                            assert(ids_sorted(self.rows_model())) by {
                                assert(forall|k: int|
                                    0 <= k < orows.len() ==> (#[trigger] self.rows_model()[k]).id_of() == orows[k].id_of());
                            }
                        }
                    }
                    proof {
                        assert(pre.contains_key(idv) && pre[idv] == lrow);
                        if wins {
                            assert(self.model() == pre.insert(idv, rm));
                            assert(merge_row(pre[idv], rm) == rm);
                        } else {
                            assert(self.model() == pre);
                            assert(merge_row(pre[idv], rm) == lrow);
                            assert(pre.insert(idv, merge_row(pre[idv], rm)) =~= pre);
                        }
                        assert(self.model() == pre.insert(idv, merge_row(pre[idv], rm)));
                    }
                },
                None => {
                    let pos = self.insert_pos(id_owned.as_str());
                    let ghost orows = self.rows_model();
                    self.rows.insert(pos, rrow);
                    proof {
                        assert(self.rows_model() =~= orows.insert(pos as int, rm));
                        lemma_map_of_insert::<T>(orows, pos as int, rm);
                        assert(ids_sorted(self.rows_model())) by {
                            let nrows = self.rows_model();
                            assert forall|a: int, b: int|
                                0 <= a < b < nrows.len() implies lex_lt(
                                (#[trigger] nrows[a]).id_of(),
                                (#[trigger] nrows[b]).id_of(),
                            ) by {
                                let p = pos as int;
                                if a < p && b == p {
                                    assert(nrows[a] == orows[a]);
                                } else if a == p && b > p {
                                    assert(nrows[b] == orows[b - 1]);
                                    let obid = orows[b - 1].id_of();
                                    assert(!lex_lt(obid, idv));
                                    crate::text::lemma_lex_total(obid, idv);
                                    assert(obid != idv) by {
                                        assert(orows[b - 1].id_of() != idv);
                                    }
                                } else if b < p {
                                    assert(nrows[a] == orows[a] && nrows[b] == orows[b]);
                                } else if a > p {
                                    assert(nrows[a] == orows[a - 1] && nrows[b] == orows[b
                                        - 1]);
                                } else {
                                    assert(a < p && b > p);
                                    assert(nrows[a] == orows[a] && nrows[b] == orows[b - 1]);
                                    let obid = orows[b - 1].id_of();
                                    assert(!lex_lt(obid, idv));
                                    crate::text::lemma_lex_total(obid, idv);
                                    if obid == idv {
                                        assert(orows[b - 1].id_of() != idv);
                                    }
                                    crate::text::lemma_lex_transitive(
                                        orows[a].id_of(),
                                        idv,
                                        obid,
                                    );
                                }
                            }
                        }
                        assert(!pre.contains_key(idv));
                        assert(!old(self).model().contains_key(idv));
                        assert(self.model() == pre.insert(idv, rm));
                    }
                },
            }
            proof {
                lemma_merge_insert(old(self).model(), map_of::<T>(rall.take(i as int)), idv,
                    rm);
                assert(rall.take(i + 1) =~= rall.take(i as int).push(rm));
                assert(rall.take(i + 1).drop_last() =~= rall.take(i as int));
                assert(map_of::<T>(rall.take(i + 1)) == map_of::<T>(rall.take(i as int)).insert(
                    idv,
                    rm,
                ));
                assert(self.model() =~= merge_spec(old(self).model(), map_of::<T>(rall.take(i
                    + 1))));
            }
            i = i + 1;
        }
        proof {
            assert(rall.take(rall.len() as int) =~= rall);
        }
    }
}


/// One shard file: its name and its full contents.
pub struct ShardFile {
    pub name: String,
    pub content: String,
}

/// The model of a shard file.
pub struct ShardFileM {
    pub name: Seq<char>,
    pub content: Seq<char>,
}

impl View for ShardFile {
    type V = ShardFileM;

    open spec fn view(&self) -> ShardFileM {
        ShardFileM { name: self.name@, content: self.content@ }
    }
}

impl DeepView for ShardFile {
    type V = ShardFileM;

    open spec fn deep_view(&self) -> ShardFileM {
        self@
    }
}

/// The fixed lead of every shard file name.
pub open spec fn items_lead() -> Seq<char> {
    seq!['i', 't', 'e', 'm', 's', '_']
}

/// The fixed tail of every shard file name.
pub open spec fn jsonl_tail() -> Seq<char> {
    seq!['.', 'j', 's', 'o', 'n', 'l']
}

/// The file name of the shard with this prefix.
pub open spec fn shard_file_name(prefix: Seq<char>) -> Seq<char> {
    items_lead() + prefix + jsonl_tail()
}

/// The shard prefix of a row at this shard width.
pub open spec fn shard_of<P>(r: RowM<P>, sc: nat) -> Seq<char> {
    crate::ident::shard_key_spec(r.id_of(), sc)
}

/// How many rows at the front of `rows` share the shard prefix `p`.
pub open spec fn run_from<P>(rows: Seq<RowM<P>>, p: Seq<char>, sc: nat) -> nat
    decreases rows.len(),
{
    if rows.len() > 0 && shard_of(rows[0], sc) == p {
        1 + run_from(rows.drop_first(), p, sc)
    } else {
        0
    }
}

proof fn lemma_run_from_bounds<P>(rows: Seq<RowM<P>>, p: Seq<char>, sc: nat)
    ensures
        run_from(rows, p, sc) <= rows.len(),
        forall|k: int| 0 <= k < run_from(rows, p, sc) ==> shard_of(#[trigger] rows[k], sc) == p,
        run_from(rows, p, sc) < rows.len() ==> shard_of(
            rows[run_from(rows, p, sc) as int],
            sc,
        ) != p,
    decreases rows.len(),
{
    if rows.len() > 0 && shard_of(rows[0], sc) == p {
        lemma_run_from_bounds(rows.drop_first(), p, sc);
        let n = run_from(rows, p, sc);
        assert forall|k: int| 0 <= k < n implies shard_of(#[trigger] rows[k], sc) == p by {
            if k > 0 {
                assert(rows[k] == rows.drop_first()[k - 1]);
            }
        }
        if n < rows.len() {
            assert(rows[n as int] == rows.drop_first()[n - 1]);
        }
    }
}

/// The lines of a row sequence: each row's canonical line, LF-terminated.
pub open spec fn lines_of<T: TableRow>(rows: Seq<RowM<T::V>>) -> Seq<char>
    decreases rows.len(),
{
    if rows.len() == 0 {
        Seq::empty()
    } else {
        lines_of::<T>(rows.drop_last()) + row_line::<T>(rows.last()) + seq!['\n']
    }
}

/// The shard files a sorted row sequence is saved as: one file per run of
/// equal shard prefixes, in row order.
pub open spec fn save_spec<T: TableRow>(rows: Seq<RowM<T::V>>, sc: nat) -> Seq<ShardFileM>
    decreases rows.len(),
    when true
    via save_spec_decreases::<T>
{
    if rows.len() == 0 {
        Seq::empty()
    } else {
        let p = shard_of(rows[0], sc);
        let n = run_from(rows, p, sc);
        seq![
            ShardFileM {
                name: shard_file_name(p),
                content: lines_of::<T>(rows.take(n as int)),
            },
        ] + save_spec::<T>(rows.skip(n as int), sc)
    }
}

#[via_fn]
proof fn save_spec_decreases<T: TableRow>(rows: Seq<RowM<T::V>>, sc: nat) {
    if rows.len() > 0 {
        let p = shard_of(rows[0], sc);
        lemma_run_from_bounds(rows, p, sc);
        assert(run_from(rows, p, sc) >= 1);
    }
}

/// The position of the first newline at or after `i`, or the length.
pub open spec fn first_nl(s: Seq<char>, i: int) -> int
    decreases s.len() - i,
    when 0 <= i <= s.len()
{
    if i < s.len() {
        if s[i] == '\n' {
            i
        } else {
            first_nl(s, i + 1)
        }
    } else {
        i
    }
}

proof fn lemma_first_nl_bounds(s: Seq<char>, i: int)
    requires
        0 <= i <= s.len(),
    ensures
        i <= first_nl(s, i) <= s.len(),
        forall|k: int| i <= k < first_nl(s, i) ==> s[k] != '\n',
        first_nl(s, i) < s.len() ==> s[first_nl(s, i)] == '\n',
    decreases s.len() - i,
{
    if i < s.len() && s[i] != '\n' {
        lemma_first_nl_bounds(s, i + 1);
    }
}

/// The lines of a file's contents, split at newlines.
pub open spec fn split_lines(s: Seq<char>) -> Seq<Seq<char>>
    decreases s.len(),
    when true
    via split_lines_decreases
{
    if s.len() == 0 {
        Seq::empty()
    } else {
        let i = first_nl(s, 0);
        if i < s.len() {
            seq![s.take(i)] + split_lines(s.skip(i + 1))
        } else {
            seq![s]
        }
    }
}

#[via_fn]
proof fn split_lines_decreases(s: Seq<char>) {
    if s.len() > 0 {
        lemma_first_nl_bounds(s, 0);
    }
}

/// A line with nothing but whitespace, which loading skips.
pub open spec fn is_blank(line: Seq<char>) -> bool {
    forall|k: int| 0 <= k < line.len() ==> crate::json::is_json_ws(#[trigger] line[k])
}

/// The rows a sequence of lines holds: blank lines are skipped, and every
/// other line must parse as a row.
pub open spec fn parse_lines<T: TableRow>(lines: Seq<Seq<char>>) -> Option<Seq<RowM<T::V>>>
    decreases lines.len(),
{
    if lines.len() == 0 {
        Some(Seq::empty())
    } else if is_blank(lines[0]) {
        parse_lines::<T>(lines.drop_first())
    } else {
        match row_parse_spec::<T>(lines[0]) {
            Option::None => None,
            Option::Some(r) => match parse_lines::<T>(lines.drop_first()) {
                Option::None => None,
                Option::Some(rest) => Some(seq![r] + rest),
            },
        }
    }
}

/// The rows one shard file holds, if every line parses.
pub open spec fn parse_shard_spec<T: TableRow>(content: Seq<char>) -> Option<Seq<RowM<T::V>>> {
    parse_lines::<T>(split_lines(content))
}

/// Whether a file name is a shard file name: `items_<prefix>.jsonl`.
pub open spec fn shard_name_matches(name: Seq<char>) -> bool {
    name.len() >= 12 && name.take(6) == items_lead() && name.skip(name.len() - 6)
        == jsonl_tail()
}

/// The rows a list of files holds, in order: files that are not shard
/// files are ignored; the first shard file with an unreadable line fails
/// the load with that file's name.
pub open spec fn load_spec<T: TableRow>(files: Seq<ShardFileM>) -> Result<
    Seq<RowM<T::V>>,
    Seq<char>,
>
    decreases files.len(),
{
    if files.len() == 0 {
        Ok(Seq::empty())
    } else {
        let f = files[0];
        if !shard_name_matches(f.name) {
            load_spec::<T>(files.drop_first())
        } else {
            match parse_shard_spec::<T>(f.content) {
                Option::None => Err(f.name),
                Option::Some(rs) => match load_spec::<T>(files.drop_first()) {
                    Result::Err(e) => Err(e),
                    Result::Ok(rest) => Ok(rs + rest),
                },
            }
        }
    }
}

/// Front decomposition of `lines_of`.
proof fn lemma_lines_of_front<T: TableRow>(rows: Seq<RowM<T::V>>)
    requires
        rows.len() > 0,
    ensures
        lines_of::<T>(rows) == row_line::<T>(rows[0]) + seq!['\n'] + lines_of::<T>(
            rows.drop_first(),
        ),
    decreases rows.len(),
{
    if rows.len() == 1 {
        assert(rows.drop_last() =~= Seq::<RowM<T::V>>::empty());
        assert(rows.drop_first() =~= Seq::<RowM<T::V>>::empty());
        assert(rows.last() == rows[0]);
        assert(lines_of::<T>(rows) =~= row_line::<T>(rows[0]) + seq!['\n']
            + lines_of::<T>(rows.drop_first()));
    } else {
        let dl = rows.drop_last();
        lemma_lines_of_front::<T>(dl);
        assert(dl[0] == rows[0]);
        assert(rows.drop_first().drop_last() =~= dl.drop_first());
        assert(rows.drop_first().last() == rows.last());
        assert(rows.drop_first().len() > 0);
        assert(lines_of::<T>(rows) == lines_of::<T>(dl) + row_line::<T>(rows.last())
            + seq!['\n']);
        assert(lines_of::<T>(rows.drop_first()) == lines_of::<T>(dl.drop_first())
            + row_line::<T>(rows.last()) + seq!['\n']);
        assert(lines_of::<T>(rows) =~= row_line::<T>(rows[0]) + seq!['\n'] + lines_of::<T>(
            rows.drop_first(),
        ));
    }
}

/// Splitting a LF-terminated line off the front of a file's contents.
proof fn lemma_split_lines_front(line: Seq<char>, rest: Seq<char>)
    requires
        crate::json::no_newline(line),
    ensures
        split_lines(line + seq!['\n'] + rest) == seq![line] + split_lines(rest),
{
    let s = line + seq!['\n'] + rest;
    let n = line.len() as int;
    assert(s[n] == '\n') by {
        assert((line + seq!['\n'])[n] == '\n');
        assert(s =~= (line + seq!['\n']) + rest);
    }
    assert(forall|k: int| 0 <= k < n ==> s[k] == #[trigger] line[k]) by {
        assert(s =~= (line + seq!['\n']) + rest);
    }
    assert(first_nl(s, 0) == n) by {
        lemma_first_nl_run(s, 0, n);
    }
    assert(s.take(n) =~= line);
    assert(s.skip(n + 1) =~= rest);
    assert(s.len() > 0);
    assert(split_lines(s) == seq![s.take(n)] + split_lines(s.skip(n + 1)));
}

proof fn lemma_first_nl_run(s: Seq<char>, i: int, n: int)
    requires
        0 <= i <= n < s.len(),
        forall|k: int| i <= k < n ==> s[k] != '\n',
        s[n] == '\n',
    ensures
        first_nl(s, i) == n,
    decreases n - i,
{
    if i < n {
        lemma_first_nl_run(s, i + 1, n);
    }
}

/// Parsing back the lines of persistable rows yields the rows.
proof fn lemma_parse_lines_of<T: TableRow>(rows: Seq<RowM<T::V>>)
    requires
        forall|k: int| 0 <= k < rows.len() ==> row_wf::<T>(#[trigger] rows[k]),
        forall|k: int| 0 <= k < rows.len() ==> crate::row::row_round_ok::<T>(#[trigger] rows[k]),
    ensures
        parse_shard_spec::<T>(lines_of::<T>(rows)) == Some(rows),
    decreases rows.len(),
{
    if rows.len() == 0 {
        assert(lines_of::<T>(rows).len() == 0);
        assert(split_lines(Seq::<char>::empty()).len() == 0);
    } else {
        let line = row_line::<T>(rows[0]);
        let rest = rows.drop_first();
        lemma_lines_of_front::<T>(rows);
        crate::row::lemma_row_line_plain::<T>(rows[0]);
        lemma_split_lines_front(line, lines_of::<T>(rest));
        assert(forall|k: int| 0 <= k < rest.len() ==> rest[k] == #[trigger] rows[k + 1]);
        lemma_parse_lines_of::<T>(rest);
        let ls = split_lines(lines_of::<T>(rows));
        assert(ls == seq![line] + split_lines(lines_of::<T>(rest)));
        assert(ls[0] == line);
        assert(ls.drop_first() =~= split_lines(lines_of::<T>(rest)));
        assert(!is_blank(line)) by {
            assert(!crate::json::is_json_ws(line[0]));
        }
        crate::row::lemma_row_roundtrip::<T>(rows[0]);
        assert(row_parse_spec::<T>(line) == Some(rows[0]));
        assert(parse_lines::<T>(ls) == Some(seq![rows[0]] + rest));
        assert(seq![rows[0]] + rest =~= rows);
    }
}

/// A shard file name always matches the shard name pattern.
proof fn lemma_shard_name_matches(prefix: Seq<char>)
    ensures
        shard_name_matches(shard_file_name(prefix)),
{
    let n = shard_file_name(prefix);
    assert(n.len() == 12 + prefix.len());
    assert(n.take(6) =~= items_lead()) by {
        assert(forall|k: int|
            0 <= k < 6 ==> n[k] == #[trigger] items_lead()[k]);
    }
    assert(n.skip(n.len() - 6) =~= jsonl_tail()) by {
        assert(forall|k: int|
            0 <= k < 6 ==> n[n.len() - 6 + k] == #[trigger] jsonl_tail()[k]);
    }
}

/// Loading the files that saving produced yields the saved rows — and so
/// the round trip through disk preserves the table's live rows and
/// tombstones exactly.
pub proof fn lemma_load_of_save<T: TableRow>(rows: Seq<RowM<T::V>>, sc: nat)
    requires
        forall|k: int| 0 <= k < rows.len() ==> row_wf::<T>(#[trigger] rows[k]),
        forall|k: int| 0 <= k < rows.len() ==> crate::row::row_round_ok::<T>(#[trigger] rows[k]),
    ensures
        load_spec::<T>(save_spec::<T>(rows, sc)) == Ok::<Seq<RowM<T::V>>, Seq<char>>(rows),
    decreases rows.len(),
{
    if rows.len() == 0 {
        assert(rows =~= Seq::<RowM<T::V>>::empty());
        assert(save_spec::<T>(rows, sc).len() == 0);
        assert(load_spec::<T>(save_spec::<T>(rows, sc)) == Ok::<Seq<RowM<T::V>>, Seq<char>>(
            Seq::empty(),
        ));
    } else {
        let p = shard_of(rows[0], sc);
        let n = run_from(rows, p, sc) as int;
        lemma_run_from_bounds(rows, p, sc);
        assert(n >= 1);
        let head = rows.take(n);
        let tail = rows.skip(n);
        assert(forall|k: int| 0 <= k < head.len() ==> head[k] == #[trigger] rows[k]);
        assert(forall|k: int| 0 <= k < tail.len() ==> tail[k] == #[trigger] rows[k + n]);
        lemma_parse_lines_of::<T>(head);
        lemma_shard_name_matches(p);
        lemma_load_of_save::<T>(tail, sc);
        let files = save_spec::<T>(rows, sc);
        assert(files[0] == ShardFileM {
            name: shard_file_name(p),
            content: lines_of::<T>(head),
        });
        assert(files.drop_first() =~= save_spec::<T>(tail, sc));
        assert(shard_name_matches(files[0].name));
        assert(parse_shard_spec::<T>(files[0].content) == Some(head));
        assert(load_spec::<T>(files.drop_first()) == Ok::<Seq<RowM<T::V>>, Seq<char>>(tail));
        assert(load_spec::<T>(files) == Ok::<Seq<RowM<T::V>>, Seq<char>>(head + tail));
        assert(head + tail =~= rows);
    }
}

/// Members of a prefix run, characterized.
proof fn lemma_run_from_exact<P>(rows: Seq<RowM<P>>, p: Seq<char>, sc: nat, n: int)
    requires
        0 <= n <= rows.len(),
        forall|k: int| 0 <= k < n ==> shard_of(#[trigger] rows[k], sc) == p,
        n == rows.len() || shard_of(rows[n], sc) != p,
    ensures
        run_from(rows, p, sc) == n,
    decreases n,
{
    if n == 0 {
    } else {
        assert(shard_of(rows[0], sc) == p);
        let df = rows.drop_first();
        assert(forall|k: int| 0 <= k < n - 1 ==> df[k] == #[trigger] rows[k + 1]);
        assert(forall|k: int| 0 <= k < n - 1 ==> shard_of(#[trigger] df[k], sc) == p);
        if n - 1 < df.len() {
            assert(df[n - 1] == rows[n]);
        }
        lemma_run_from_exact(df, p, sc, n - 1);
    }
}

impl<T: TableRow> Table<T> {
    /// Whether the row at `j` falls in the shard named by `prefix`.
    fn shard_matches_at(&self, j: usize, prefix: &str) -> (r: bool)
        requires
            self.wf(),
            j < self.rows_model().len(),
        ensures
            r == (shard_of(self.rows_model()[j as int], self.shard_chars_spec()) == prefix@),
    {
        proof {
            assert(self.rows_model()[j as int] == self.rows@[j as int].deep_view());
        }
        let sp = crate::ident::shard_key(self.rows[j].id(), self.shard_characters);
        crate::text::str_eq(sp.as_str(), prefix)
    }

    /// Render the table as its shard files: rows grouped by shard prefix,
    /// sorted by identifier within each file, one JSON object per
    /// LF-terminated line. The result is a pure function of the table's
    /// contents, and loading it back yields exactly the saved rows.
    pub fn save(&self) -> (r: Vec<ShardFile>)
        requires
            self.wf(),
        ensures
            r.deep_view() == save_spec::<T>(self.rows_model(), self.shard_chars_spec()),
            load_spec::<T>(r.deep_view()) == Ok::<Seq<RowM<T::V>>, Seq<char>>(
                self.rows_model(),
            ),
    {
        let ghost rm = self.rows_model();
        let ghost sc = self.shard_chars_spec();
        let mut out: Vec<ShardFile> = Vec::new();
        let mut i: usize = 0;
        proof {
            assert(rm.skip(0) =~= rm);
            assert(out.deep_view() =~= Seq::<ShardFileM>::empty());
            assert(Seq::<ShardFileM>::empty() + save_spec::<T>(rm.skip(0), sc)
                =~= save_spec::<T>(rm, sc));
        }
        while i < self.rows.len()
            invariant
                self.wf(),
                i <= self.rows.len(),
                rm == self.rows_model(),
                sc == self.shard_chars_spec(),
                save_spec::<T>(rm, sc) == out.deep_view() + save_spec::<T>(
                    rm.skip(i as int),
                    sc,
                ),
                forall|k: int| 0 <= k < i ==> crate::row::row_round_ok::<T>(#[trigger] rm[k]),
            decreases self.rows.len() - i,
        {
            proof {
                assert(rm[i as int] == self.rows@[i as int].deep_view());
            }
            let prefix = crate::ident::shard_key(self.rows[i].id(), self.shard_characters);
            let ghost p = prefix@;
            let mut content = String::new();
            let mut j: usize = i;
            proof {
                assert(rm.subrange(i as int, i as int) =~= Seq::<RowM<T::V>>::empty());
            }
            while j < self.rows.len() && self.shard_matches_at(j, prefix.as_str())
                invariant
                    self.wf(),
                    rm == self.rows_model(),
                    sc == self.shard_chars_spec(),
                    i <= j <= self.rows.len(),
                    i < self.rows.len(),
                    p == prefix@,
                    p == crate::ident::shard_key_spec(rm[i as int].id_of(), sc),
                    content@ == lines_of::<T>(rm.subrange(i as int, j as int)),
                    forall|k: int|
                        i <= k < j ==> shard_of(#[trigger] rm[k], sc) == p,
                    forall|k: int|
                        i <= k < j ==> crate::row::row_round_ok::<T>(#[trigger] rm[k]),
                decreases self.rows.len() - j,
            {
                proof {
                    assert(rm[j as int] == self.rows@[j as int].deep_view());
                    assert(shard_of(rm[j as int], sc) == p);
                }
                let line = crate::row::write_row(&self.rows[j]);
                crate::text::push_str(&mut content, line.as_str());
                crate::text::push_char(&mut content, '\n');
                proof {
                    let seg = rm.subrange(i as int, j + 1);
                    assert(seg.drop_last() =~= rm.subrange(i as int, j as int));
                    assert(seg.last() == rm[j as int]);
                    assert(content@ =~= lines_of::<T>(seg));
                }
                j = j + 1;
            }
            // The scanned run is exactly the run the rendering groups.
            proof {
                let rest = rm.skip(i as int);
                assert(forall|k: int|
                    0 <= k < rest.len() ==> rest[k] == #[trigger] rm[k + i]);
                assert(shard_of(rest[0], sc) == p);
                assert(forall|k: int|
                    0 <= k < j - i ==> shard_of(#[trigger] rest[k], sc) == p);
                if (j as int) < rm.len() {
                    assert(rm[j as int] == self.rows@[j as int].deep_view());
                    assert(shard_of(rest[j - i], sc) != p);
                }
                lemma_run_from_exact(rest, p, sc, j - i);
                assert(rest.take(j - i) =~= rm.subrange(i as int, j as int));
                assert(rest.skip(j - i) =~= rm.skip(j as int));
            }
            let mut name = String::new();
            crate::text::push_str(&mut name, "items_");
            crate::text::push_str(&mut name, prefix.as_str());
            crate::text::push_str(&mut name, ".jsonl");
            proof {
                reveal_strlit("items_");
                reveal_strlit(".jsonl");
                assert(name@ =~= shard_file_name(p));
            }
            let ghost out_before = out.deep_view();
            out.push(ShardFile { name, content });
            proof {
                let rest = rm.skip(i as int);
                assert(save_spec::<T>(rest, sc) == seq![
                    ShardFileM { name: shard_file_name(p), content: lines_of::<T>(rest.take(j
                        - i)) },
                ] + save_spec::<T>(rest.skip(j - i), sc));
                assert(out.deep_view() =~= out_before.push(ShardFileM {
                    name: shard_file_name(p),
                    content: lines_of::<T>(rm.subrange(i as int, j as int)),
                }));
                assert(save_spec::<T>(rm, sc) =~= out.deep_view() + save_spec::<T>(rm.skip(
                    j as int,
                ), sc));
            }
            i = j;
        }
        proof {
            assert(rm.skip(rm.len() as int) =~= Seq::<RowM<T::V>>::empty());
            assert(save_spec::<T>(rm.skip(rm.len() as int), sc)
                =~= Seq::<ShardFileM>::empty());
            assert(out.deep_view() + Seq::<ShardFileM>::empty() =~= out.deep_view());
            assert(forall|k: int| 0 <= k < rm.len() ==> row_wf::<T>(#[trigger] rm[k]));
            lemma_load_of_save::<T>(rm, sc);
        }
        out
    }

    /// Put a row into the table under its own identifier, replacing any
    /// row already there.
    pub(crate) fn insert_raw(&mut self, row: Row<T>)
        requires
            old(self).wf(),
            row_wf::<T>(row.deep_view()),
        ensures
            final(self).wf(),
            final(self).id_length_spec() == old(self).id_length_spec(),
            final(self).shard_chars_spec() == old(self).shard_chars_spec(),
            final(self).model() == old(self).model().insert(
                row.deep_view().id_of(),
                row.deep_view(),
            ),
    {
        proof {
            lemma_sorted_distinct(self.rows_model());
            lemma_map_of_props::<T>(self.rows_model());
        }
        let ghost rmw = row.deep_view();
        let ghost idv = rmw.id_of();
        let id_owned = match &row {
            Row::Tombstone { id, .. } => id.clone(),
            Row::Live { id, .. } => id.clone(),
        };
        match self.find_row(id_owned.as_str()) {
            Some(j) => {
                proof {
                    assert(self.rows_model()[j as int] == self.rows@[j as int].deep_view());
                }
                let ghost orows = self.rows_model();
                self.rows[j] = row;
                proof {
                    assert(self.rows_model() =~= orows.update(j as int, rmw));
                    lemma_map_of_update::<T>(orows, j as int, rmw);
                    assert(ids_sorted(self.rows_model())) by {
                        assert(forall|k: int|
                            0 <= k < orows.len() ==> (#[trigger] self.rows_model()[k]).id_of()
                                == orows[k].id_of());
                    }
                }
            },
            None => {
                let pos = self.insert_pos(id_owned.as_str());
                let ghost orows = self.rows_model();
                self.rows.insert(pos, row);
                proof {
                    assert(self.rows_model() =~= orows.insert(pos as int, rmw));
                    lemma_map_of_insert::<T>(orows, pos as int, rmw);
                    assert(ids_sorted(self.rows_model())) by {
                        let nrows = self.rows_model();
                        assert forall|a: int, b: int|
                            0 <= a < b < nrows.len() implies lex_lt(
                            (#[trigger] nrows[a]).id_of(),
                            (#[trigger] nrows[b]).id_of(),
                        ) by {
                            let q = pos as int;
                            if a < q && b == q {
                                assert(nrows[a] == orows[a]);
                            } else if a == q && b > q {
                                assert(nrows[b] == orows[b - 1]);
                                let obid = orows[b - 1].id_of();
                                assert(!lex_lt(obid, idv));
                                crate::text::lemma_lex_total(obid, idv);
                                assert(obid != idv) by {
                                    assert(orows[b - 1].id_of() != idv);
                                }
                            } else if b < q {
                                assert(nrows[a] == orows[a] && nrows[b] == orows[b]);
                            } else if a > q {
                                assert(nrows[a] == orows[a - 1] && nrows[b] == orows[b - 1]);
                            } else {
                                assert(a < q && b > q);
                                assert(nrows[a] == orows[a] && nrows[b] == orows[b - 1]);
                                assert(lex_lt(orows[a].id_of(), idv));
                                let obid = orows[b - 1].id_of();
                                assert(!lex_lt(obid, idv));
                                crate::text::lemma_lex_total(obid, idv);
                                if obid == idv {
                                    assert(orows[b - 1].id_of() != idv);
                                }
                                crate::text::lemma_lex_transitive(orows[a].id_of(), idv, obid);
                            }
                        }
                    }
                }
            },
        }
    }
}

/// Whether a file name names a shard file.
pub fn shard_name_ok(name: &str) -> (r: bool)
    ensures
        r == shard_name_matches(name@),
{
    let n = name.unicode_len();
    if n < 12 {
        return false;
    }
    let lead = name.substring_char(0, 6);
    let tail = name.substring_char(n - 6, n);
    let lead_ok = crate::text::str_eq(lead, "items_");
    let tail_ok = crate::text::str_eq(tail, ".jsonl");
    proof {
        reveal_strlit("items_");
        reveal_strlit(".jsonl");
        assert(items_lead() =~= "items_"@);
        assert(jsonl_tail() =~= ".jsonl"@);
        assert(lead@ == name@.take(6));
        assert(tail@ == name@.skip(n - 6));
    }
    lead_ok && tail_ok
}

/// Whether a line holds nothing but whitespace.
fn line_is_blank(line: &str) -> (r: bool)
    ensures
        r == is_blank(line@),
{
    let n = line.unicode_len();
    let mut i: usize = 0;
    while i < n
        invariant
            i <= n,
            n == line@.len(),
            forall|k: int| 0 <= k < i ==> crate::json::is_json_ws(#[trigger] line@[k]),
        decreases n - i,
    {
        let c = line.get_char(i);
        if !(c == ' ' || c == '\t' || c == '\n' || c == '\r') {
            return false;
        }
        i = i + 1;
    }
    true
}

/// Parse the rows of one shard file's contents: blank lines are skipped
/// and every other line must hold a row.
pub(crate) fn parse_shard<T: TableRow>(content: &str) -> (r: Option<Vec<Row<T>>>)
    ensures
        match r {
            Some(v) => parse_shard_spec::<T>(content@) == Some(v.deep_view()) && forall|k: int|
                0 <= k < v.deep_view().len() ==> row_wf::<T>(#[trigger] v.deep_view()[k]),
            None => parse_shard_spec::<T>(content@) is None,
        },
{
    let chars = crate::text::str_chars(content);
    let n = chars.len();
    let mut out: Vec<Row<T>> = Vec::new();
    let mut i: usize = 0;
    proof {
        assert(content@.skip(0) =~= content@);
        assert(out.deep_view() =~= Seq::<RowM<T::V>>::empty());
    }
    while i < n
        invariant
            i <= n,
            n == content@.len(),
            chars@ == content@,
            forall|k: int|
                0 <= k < out.deep_view().len() ==> row_wf::<T>(#[trigger] out.deep_view()[k]),
            match parse_lines::<T>(split_lines(content@.skip(i as int))) {
                Option::Some(rest) => parse_shard_spec::<T>(content@) == Some(out.deep_view()
                    + rest),
                Option::None => parse_shard_spec::<T>(content@) is None,
            },
        decreases n - i,
    {
        let ghost rem = content@.skip(i as int);
        // Scan to the end of the current line.
        let mut j: usize = i;
        while j < n && chars[j] != '\n'
            invariant
                i <= j <= n,
                n == chars@.len(),
                chars@ == content@,
                forall|k: int| i <= k < j ==> content@[k] != '\n',
            decreases n - j,
        {
            j = j + 1;
        }
        proof {
            assert(forall|k: int|
                0 <= k < rem.len() ==> rem[k] == #[trigger] content@[k + i]);
            assert(forall|k: int| 0 <= k < j - i ==> rem[k] != '\n');
            if (j as int) < n {
                assert(rem[j - i] == '\n');
                lemma_first_nl_run(rem, 0, j - i);
            } else {
                lemma_first_nl_bounds(rem, 0);
                assert forall|k: int| 0 <= k < rem.len() implies rem[k] != '\n' by {}
                if first_nl(rem, 0) < rem.len() {
                    assert(rem[first_nl(rem, 0)] == '\n');
                }
            }
            assert(first_nl(rem, 0) == j - i);
        }
        // The current line.
        let mut lv: Vec<char> = Vec::new();
        let mut k = i;
        while k < j
            invariant
                i <= k <= j <= n,
                n == chars@.len(),
                chars@ == content@,
                lv@ == content@.subrange(i as int, k as int),
            decreases j - k,
        {
            lv.push(chars[k]);
            proof {
                assert(content@.subrange(i as int, k + 1) =~= content@.subrange(
                    i as int,
                    k as int,
                ).push(content@[k as int]));
            }
            k = k + 1;
        }
        let line = crate::text::chars_to_string(&lv);
        let ghost linev = rem.take(j - i);
        proof {
            assert(line@ =~= linev);
        }
        let ghost lines_rem = split_lines(rem);
        proof {
            assert(rem.len() > 0);
            if (j as int) < n {
                assert(lines_rem == seq![linev] + split_lines(rem.skip(j - i + 1)));
            } else {
                assert(rem.take(j - i) =~= rem);
                assert(lines_rem == seq![rem]);
                assert(lines_rem =~= seq![linev] + split_lines(
                    Seq::<char>::empty(),
                ));
            }
            assert(lines_rem[0] == linev);
            assert(lines_rem.drop_first() =~= if (j as int) < n {
                split_lines(rem.skip(j - i + 1))
            } else {
                split_lines(Seq::<char>::empty())
            });
        }
        let blank = line_is_blank(line.as_str());
        if !blank {
            match crate::row::parse_row::<T>(line.as_str()) {
                Some(row) => {
                    let ghost before = out.deep_view();
                    out.push(row);
                    proof {
                        assert(out.deep_view() =~= before.push(row.deep_view()));
                        assert(before.push(row.deep_view()) =~= before + seq![
                            row.deep_view(),
                        ]);
                    }
                },
                None => {
                    proof {
                        assert(parse_lines::<T>(lines_rem) is None);
                    }
                    return None;
                },
            }
        }
        proof {
            if (j as int) < n {
                assert(content@.skip(i as int).skip(j - i + 1) =~= content@.skip(j + 1));
            }
        }
        if j < n {
            i = j + 1;
        } else {
            i = n;
            proof {
                assert(content@.skip(n as int) =~= Seq::<char>::empty());
            }
        }
        proof {
            let new_rem_lines = split_lines(content@.skip(i as int));
            match parse_lines::<T>(new_rem_lines) {
                Option::Some(rest) => {
                    assert(parse_shard_spec::<T>(content@) == Some(out.deep_view() + rest));
                },
                Option::None => {
                    assert(parse_shard_spec::<T>(content@) is None);
                },
            }
        }
    }
    proof {
        assert(content@.skip(n as int) =~= Seq::<char>::empty());
        assert(split_lines(Seq::<char>::empty()).len() == 0);
        assert(out.deep_view() + Seq::<RowM<T::V>>::empty() =~= out.deep_view());
    }
    Some(out)
}


impl<T: TableRow> Table<T> {
    /// Load a table from a directory listing: files whose names do not
    /// match `items_<prefix>.jsonl` are ignored, the rest are read line by
    /// line, later rows winning on duplicate identifiers. A file with an
    /// unreadable line fails the load and is named in the error.
    pub fn load(files: &Vec<ShardFile>) -> (r: Result<Table<T>, StoreError>)
        ensures
            match r {
                Ok(t) => t.wf() && load_spec::<T>(files.deep_view()) is Ok && t.model()
                    == map_of::<T>(load_spec::<T>(files.deep_view())->Ok_0),
                Err(e) => match e {
                    StoreError::ParseError { file } => load_spec::<T>(files.deep_view())
                        == Err::<Seq<RowM<T::V>>, Seq<char>>(file@),
                    _ => false,
                },
            },
    {
        let ghost fall = files.deep_view();
        let mut t = Table::<T>::new();
        let ghost mut acc: Seq<RowM<T::V>> = Seq::empty();
        let mut i: usize = 0;
        proof {
            assert(fall.skip(0) =~= fall);
            assert(acc + Seq::<RowM<T::V>>::empty() =~= acc);
            assert(t.model() =~= map_of::<T>(acc));
        }
        while i < files.len()
            invariant
                i <= files.len(),
                fall == files.deep_view(),
                fall.len() == files.len(),
                t.wf(),
                t.model() == map_of::<T>(acc),
                match load_spec::<T>(fall.skip(i as int)) {
                    Result::Ok(rest) => load_spec::<T>(fall) == Ok::<
                        Seq<RowM<T::V>>,
                        Seq<char>,
                    >(acc + rest),
                    Result::Err(e) => load_spec::<T>(fall) == Err::<
                        Seq<RowM<T::V>>,
                        Seq<char>,
                    >(e),
                },
            decreases files.len() - i,
        {
            let ghost frem = fall.skip(i as int);
            proof {
                assert(frem[0] == fall[i as int]);
                assert(fall[i as int] == files@[i as int].deep_view());
                assert(frem.drop_first() =~= fall.skip(i + 1));
            }
            let f = &files[i];
            if shard_name_ok(f.name.as_str()) {
                match parse_shard::<T>(f.content.as_str()) {
                    Some(rows) => {
                        let ghost shard_rows = rows.deep_view();
                        let rn = rows.len();
                        let mut k: usize = 0;
                        proof {
                            assert(shard_rows.take(0) =~= Seq::<RowM<T::V>>::empty());
                            assert(acc + shard_rows.take(0) =~= acc);
                        }
                        while k < rn
                            invariant
                                k <= rn,
                                rn == rows.len(),
                                shard_rows == rows.deep_view(),
                                t.wf(),
                                t.model() == map_of::<T>(acc + shard_rows.take(k as int)),
                                forall|q: int|
                                    0 <= q < shard_rows.len() ==> row_wf::<T>(
                                        #[trigger] shard_rows[q],
                                    ),
                            decreases rn - k,
                        {
                            let row = rows[k].dup_row();
                            proof {
                                assert(shard_rows[k as int] == rows@[k as int].deep_view());
                            }
                            t.insert_raw(row);
                            proof {
                                let pre = acc + shard_rows.take(k as int);
                                let post = acc + shard_rows.take(k + 1);
                                assert(post.drop_last() =~= pre);
                                assert(post.last() == shard_rows[k as int]);
                                assert(map_of::<T>(post) == map_of::<T>(pre).insert(
                                    shard_rows[k as int].id_of(),
                                    shard_rows[k as int],
                                ));
                            }
                            k = k + 1;
                        }
                        proof {
                            assert(shard_rows.take(rn as int) =~= shard_rows);
                            assert(shard_name_matches(frem[0].name));
                            assert(parse_shard_spec::<T>(frem[0].content) == Some(shard_rows));
                            match load_spec::<T>(fall.skip(i + 1)) {
                                Result::Ok(rest) => {
                                    assert(load_spec::<T>(frem) == Ok::<
                                        Seq<RowM<T::V>>,
                                        Seq<char>,
                                    >(shard_rows + rest));
                                    assert(load_spec::<T>(fall) == Ok::<
                                        Seq<RowM<T::V>>,
                                        Seq<char>,
                                    >(acc + (shard_rows + rest)));
                                    assert(acc + (shard_rows + rest) =~= (acc + shard_rows)
                                        + rest);
                                },
                                Result::Err(e) => {
                                    assert(load_spec::<T>(frem) == Err::<
                                        Seq<RowM<T::V>>,
                                        Seq<char>,
                                    >(e));
                                },
                            }
                            acc = acc + shard_rows;
                            assert(t.model() == map_of::<T>(acc));
                        }
                    },
                    None => {
                        proof {
                            assert(load_spec::<T>(frem) == Err::<
                                Seq<RowM<T::V>>,
                                Seq<char>,
                            >(frem[0].name));
                        }
                        return Err(StoreError::ParseError { file: f.name.clone() });
                    },
                }
            } else {
                proof {
                    assert(load_spec::<T>(frem) == load_spec::<T>(frem.drop_first()));
                }
            }
            i = i + 1;
        }
        proof {
            assert(fall.skip(fall.len() as int) =~= Seq::<ShardFileM>::empty());
            assert(load_spec::<T>(Seq::<ShardFileM>::empty()) == Ok::<
                Seq<RowM<T::V>>,
                Seq<char>,
            >(Seq::empty()));
            assert(acc + Seq::<RowM<T::V>>::empty() =~= acc);
        }
        Ok(t)
    }

    /// Take the table apart into its rows, sorted by identifier.
    pub fn into_rows(self) -> (r: Vec<Row<T>>)
        requires
            self.wf(),
        ensures
            r.deep_view() == self.rows_model(),
            ids_sorted(r.deep_view()),
            ids_distinct(r.deep_view()),
            forall|k: int| 0 <= k < r.deep_view().len() ==> row_wf::<T>(#[trigger] r.deep_view()[k]),
            map_of::<T>(r.deep_view()) == self.model(),
    {
        proof {
            lemma_sorted_distinct(self.rows_model());
        }
        self.rows
    }
}

/// Parse the rows of one shard's contents into a deduplicated row list,
/// later lines winning on duplicate identifiers.
pub fn parse_rows<T: TableRow>(content: &str) -> (r: Option<Vec<Row<T>>>)
    ensures
        match r {
            Some(v) => parse_shard_spec::<T>(content@) is Some && ids_sorted(v.deep_view())
                && ids_distinct(v.deep_view()) && (forall|k: int|
                0 <= k < v.deep_view().len() ==> row_wf::<T>(#[trigger] v.deep_view()[k]))
                && map_of::<T>(v.deep_view()) == map_of::<T>(
                parse_shard_spec::<T>(content@)->Some_0,
            ),
            None => parse_shard_spec::<T>(content@) is None,
        },
{
    let rows = match parse_shard::<T>(content) {
        Some(rows) => rows,
        None => {
            return None;
        },
    };
    let ghost shard_rows = rows.deep_view();
    let mut t = Table::<T>::new();
    let rn = rows.len();
    let mut k: usize = 0;
    proof {
        assert(shard_rows.take(0) =~= Seq::<RowM<T::V>>::empty());
        assert(t.model() =~= map_of::<T>(shard_rows.take(0)));
    }
    while k < rn
        invariant
            k <= rn,
            rn == rows.len(),
            shard_rows == rows.deep_view(),
            t.wf(),
            t.model() == map_of::<T>(shard_rows.take(k as int)),
            forall|q: int|
                0 <= q < shard_rows.len() ==> row_wf::<T>(#[trigger] shard_rows[q]),
        decreases rn - k,
    {
        let row = rows[k].dup_row();
        proof {
            assert(shard_rows[k as int] == rows@[k as int].deep_view());
        }
        t.insert_raw(row);
        proof {
            assert(shard_rows.take(k + 1).drop_last() =~= shard_rows.take(k as int));
            assert(shard_rows.take(k + 1).last() == shard_rows[k as int]);
        }
        k = k + 1;
    }
    proof {
        assert(shard_rows.take(rn as int) =~= shard_rows);
    }
    Some(t.into_rows())
}

/// Lexicographic order transfers along equalities; helper for uniqueness.
proof fn lemma_lex_le_trans(a: Seq<char>, b: Seq<char>, c: Seq<char>)
    requires
        crate::text::lex_le(a, b),
        crate::text::lex_le(b, c),
    ensures
        crate::text::lex_le(a, c),
{
    if a != b && b != c {
        crate::text::lemma_lex_transitive(a, b, c);
    }
}

/// Two sorted row sequences denoting the same map are the same sequence.
pub proof fn lemma_sorted_rows_unique<T: TableRow>(a: Seq<RowM<T::V>>, b: Seq<RowM<T::V>>)
    requires
        ids_sorted(a),
        ids_sorted(b),
        map_of::<T>(a) == map_of::<T>(b),
    ensures
        a == b,
    decreases a.len(),
{
    lemma_sorted_distinct(a);
    lemma_sorted_distinct(b);
    lemma_map_of_props::<T>(a);
    lemma_map_of_props::<T>(b);
    if a.len() == 0 {
        if b.len() > 0 {
            assert(map_of::<T>(b).contains_key(b[0].id_of()));
            assert(map_of::<T>(a) =~= Map::<Seq<char>, RowM<T::V>>::empty());
        }
        assert(a =~= b);
    } else if b.len() == 0 {
        assert(map_of::<T>(a).contains_key(a[0].id_of()));
        assert(map_of::<T>(b) =~= Map::<Seq<char>, RowM<T::V>>::empty());
    } else {
        let la = a[a.len() - 1];
        let lb = b[b.len() - 1];
        // The last identifiers agree: each is bounded by the other.
        assert(map_of::<T>(b).contains_key(la.id_of()));
        let j = choose|j: int| 0 <= j < b.len() && (#[trigger] b[j]).id_of() == la.id_of();
        assert(crate::text::lex_le(b[j].id_of(), lb.id_of())) by {
            if j < b.len() - 1 {
                assert(crate::text::lex_lt(b[j].id_of(), b[b.len() - 1].id_of()));
            }
        }
        assert(map_of::<T>(a).contains_key(lb.id_of()));
        let i = choose|i: int| 0 <= i < a.len() && (#[trigger] a[i]).id_of() == lb.id_of();
        assert(crate::text::lex_le(a[i].id_of(), la.id_of())) by {
            if i < a.len() - 1 {
                assert(crate::text::lex_lt(a[i].id_of(), a[a.len() - 1].id_of()));
            }
        }
        assert(la.id_of() == lb.id_of()) by {
            lemma_lex_le_trans(la.id_of(), lb.id_of(), la.id_of());
            if la.id_of() != lb.id_of() {
                if crate::text::lex_lt(la.id_of(), lb.id_of()) {
                    crate::text::lemma_lex_asymmetric(la.id_of(), lb.id_of());
                    lemma_lex_le_trans(lb.id_of(), la.id_of(), lb.id_of());
                    assert(crate::text::lex_le(lb.id_of(), la.id_of()));
                    assert(crate::text::lex_lt(lb.id_of(), la.id_of()));
                } else {
                    crate::text::lemma_lex_total(la.id_of(), lb.id_of());
                    crate::text::lemma_lex_asymmetric(lb.id_of(), la.id_of());
                    assert(crate::text::lex_le(la.id_of(), lb.id_of()));
                    assert(crate::text::lex_lt(la.id_of(), lb.id_of()));
                }
            }
        }
        // And so do the rows themselves.
        assert(map_of::<T>(a)[la.id_of()] == la);
        assert(map_of::<T>(b)[lb.id_of()] == lb);
        assert(la == lb);
        // Peel the last row off both sides.
        let da = a.drop_last();
        let db = b.drop_last();
        assert(ids_sorted(da)) by {
            assert(forall|k: int| 0 <= k < da.len() ==> da[k] == #[trigger] a[k]);
        }
        assert(ids_sorted(db)) by {
            assert(forall|k: int| 0 <= k < db.len() ==> db[k] == #[trigger] b[k]);
        }
        lemma_sorted_distinct(da);
        lemma_sorted_distinct(db);
        lemma_map_of_props::<T>(da);
        lemma_map_of_props::<T>(db);
        assert(!map_of::<T>(da).contains_key(la.id_of())) by {
            assert(forall|k: int| 0 <= k < da.len() ==> da[k] == #[trigger] a[k]);
            if map_of::<T>(da).contains_key(la.id_of()) {
                let q = choose|q: int|
                    0 <= q < da.len() && (#[trigger] da[q]).id_of() == la.id_of();
                assert(a[q].id_of() == a[a.len() - 1].id_of());
            }
        }
        assert(!map_of::<T>(db).contains_key(lb.id_of())) by {
            assert(forall|k: int| 0 <= k < db.len() ==> db[k] == #[trigger] b[k]);
            if map_of::<T>(db).contains_key(lb.id_of()) {
                let q = choose|q: int|
                    0 <= q < db.len() && (#[trigger] db[q]).id_of() == lb.id_of();
                assert(b[q].id_of() == b[b.len() - 1].id_of());
            }
        }
        assert(map_of::<T>(da) =~= map_of::<T>(a).remove(la.id_of()));
        assert(map_of::<T>(db) =~= map_of::<T>(b).remove(lb.id_of()));
        lemma_sorted_rows_unique::<T>(da, db);
        assert(a =~= da.push(la));
        assert(b =~= db.push(lb));
    }
}

/// Saving is a function of the logical state alone: two tables holding
/// the same map save to byte-identical files.
pub proof fn lemma_save_deterministic<T: TableRow>(
    a: Seq<RowM<T::V>>,
    b: Seq<RowM<T::V>>,
    sc: nat,
)
    requires
        ids_sorted(a),
        ids_sorted(b),
        map_of::<T>(a) == map_of::<T>(b),
    ensures
        save_spec::<T>(a, sc) == save_spec::<T>(b, sc),
{
    lemma_sorted_rows_unique::<T>(a, b);
}

/// Every row is saved into the shard file named by the first characters
/// of its identifier.
pub proof fn lemma_shard_assignment<T: TableRow>(rows: Seq<RowM<T::V>>, sc: nat)
    ensures
        forall|i: int|
            0 <= i < rows.len() ==> exists|j: int|
                0 <= j < save_spec::<T>(rows, sc).len() && (#[trigger] save_spec::<T>(
                    rows,
                    sc,
                )[j]).name == shard_file_name(shard_of(#[trigger] rows[i], sc)),
    decreases rows.len(),
{
    if rows.len() > 0 {
        let p = shard_of(rows[0], sc);
        let n = run_from(rows, p, sc) as int;
        lemma_run_from_bounds(rows, p, sc);
        let files = save_spec::<T>(rows, sc);
        let tail = rows.skip(n);
        lemma_shard_assignment::<T>(tail, sc);
        assert(files.drop_first() =~= save_spec::<T>(tail, sc));
        assert forall|i: int| 0 <= i < rows.len() implies exists|j: int|
            0 <= j < files.len() && (#[trigger] files[j]).name == shard_file_name(
                shard_of(#[trigger] rows[i], sc),
            ) by {
            if i < n {
                assert(shard_of(rows[i], sc) == p);
                assert(files[0].name == shard_file_name(shard_of(rows[i], sc)));
            } else {
                assert(tail[i - n] == rows[i]);
                let j = choose|j: int|
                    0 <= j < save_spec::<T>(tail, sc).len() && (#[trigger] save_spec::<T>(
                        tail,
                        sc,
                    )[j]).name == shard_file_name(shard_of(tail[i - n], sc));
                assert(files[j + 1] == save_spec::<T>(tail, sc)[j]);
                assert(files[j + 1].name == shard_file_name(shard_of(rows[i], sc)));
            }
        }
    }
}

/// A deletion leaves no live row: after replacing a row by a tombstone,
/// nothing is live under that identifier, whatever state the map is in.
pub proof fn lemma_delete_leaves_tombstone<P>(
    m: Map<Seq<char>, RowM<P>>,
    id: Seq<char>,
    t: Timestamp,
)
    ensures
        !live_at(m.insert(id, RowM::Tombstone { id: id, deleted_at: t }), id),
        m.insert(id, RowM::Tombstone { id: id, deleted_at: t }).contains_key(id),
{
}

/// An upsert after a deletion resurrects the row: the identifier is live
/// again and the tombstone is gone.
pub proof fn lemma_upsert_resurrects<P>(
    m: Map<Seq<char>, RowM<P>>,
    id: Seq<char>,
    p: P,
    deleted: Timestamp,
    now: Timestamp,
)
    ensures
        ({
            let after = m.insert(id, RowM::Tombstone { id: id, deleted_at: deleted }).insert(
                id,
                RowM::Live { id: id, payload: p, updated_at: Some(now) },
            );
            live_with(after, id, p) && after[id] == (RowM::Live {
                id: id,
                payload: p,
                updated_at: Some(now),
            })
        }),
{
}

/// A refreshing upsert stamps the row with the given time, so with a
/// clock that moved forward the change time strictly advances.
pub proof fn lemma_upsert_advances<P>(
    m: Map<Seq<char>, RowM<P>>,
    id: Seq<char>,
    p: P,
    t0: Timestamp,
    now: Timestamp,
)
    requires
        m.contains_key(id),
        m[id] == (RowM::Live { id: id, payload: p, updated_at: Some(t0) }),
        t0.le_spec(&now),
        t0 != now,
    ensures
        ({
            let after = m.insert(
                id,
                RowM::Live { id: id, payload: p, updated_at: Some(now) },
            );
            match (m[id].stamp_of(), after[id].stamp_of()) {
                (Some(a), Some(b)) => a.le_spec(&b) && a != b,
                _ => false,
            }
        }),
{
}

/// Truncation preserves the lexicographic order: the shard prefix of a
/// smaller identifier is no larger.
proof fn lemma_shard_key_monotone(a: Seq<char>, b: Seq<char>, sc: nat)
    requires
        lex_lt(a, b),
    ensures
        lex_lt(
            crate::ident::shard_key_spec(a, sc),
            crate::ident::shard_key_spec(b, sc),
        ) || crate::ident::shard_key_spec(a, sc) == crate::ident::shard_key_spec(b, sc),
    decreases sc,
{
    let ta = crate::ident::shard_key_spec(a, sc);
    let tb = crate::ident::shard_key_spec(b, sc);
    if sc == 0 {
        assert(ta =~= Seq::<char>::empty());
        assert(tb =~= Seq::<char>::empty());
        assert(ta == tb);
    } else if a.len() == 0 {
        assert(ta =~= Seq::<char>::empty());
        if tb.len() == 0 {
            assert(ta == tb);
        } else {
            assert(lex_lt(ta, tb));
        }
    } else {
        // b is non-empty: lex_lt(a, b) with a non-empty forces it.
        assert(b.len() > 0);
        assert(ta.len() > 0 && tb.len() > 0);
        assert(ta[0] == a[0] && tb[0] == b[0]);
        if a[0] == b[0] {
            lemma_shard_key_monotone(a.drop_first(), b.drop_first(), (sc - 1) as nat);
            let ta1 = crate::ident::shard_key_spec(a.drop_first(), (sc - 1) as nat);
            let tb1 = crate::ident::shard_key_spec(b.drop_first(), (sc - 1) as nat);
            assert(ta.drop_first() =~= ta1);
            assert(tb.drop_first() =~= tb1);
            if ta1 == tb1 {
                assert(ta.len() == 1 + ta1.len());
                assert(tb.len() == 1 + tb1.len());
                assert forall|i: int| 0 <= i < ta.len() implies ta[i] == tb[i] by {
                    if i > 0 {
                        assert(ta[i] == ta.drop_first()[i - 1]);
                        assert(tb[i] == tb.drop_first()[i - 1]);
                    }
                }
                assert(ta =~= tb);
            } else {
                assert(lex_lt(ta, tb));
            }
        } else {
            assert(a[0] < b[0]);
            assert(lex_lt(ta, tb));
        }
    }
}

/// Distinct shard prefixes name distinct files.
proof fn lemma_shard_file_name_injective(p: Seq<char>, q: Seq<char>)
    requires
        p != q,
    ensures
        shard_file_name(p) != shard_file_name(q),
{
    let np = shard_file_name(p);
    let nq = shard_file_name(q);
    if p.len() != q.len() {
        assert(np.len() != nq.len());
    } else {
        assert(!(p =~= q));
        let k = choose|k: int| 0 <= k < p.len() && p[k] != q[k];
        assert(np[6 + k] == p[k]) by {
            assert(np =~= items_lead() + p + jsonl_tail());
        }
        assert(nq[6 + k] == q[k]) by {
            assert(nq =~= items_lead() + q + jsonl_tail());
        }
        if np == nq {
            assert(np[6 + k] == nq[6 + k]);
        }
    }
}

/// Every saved file is named after some row's shard prefix.
proof fn lemma_save_names_from_rows<T: TableRow>(rows: Seq<RowM<T::V>>, sc: nat)
    ensures
        forall|j: int|
            0 <= j < save_spec::<T>(rows, sc).len() ==> exists|k: int|
                0 <= k < rows.len() && (#[trigger] save_spec::<T>(rows, sc)[j]).name
                    == shard_file_name(shard_of(rows[k], sc)),
    decreases rows.len(),
{
    if rows.len() > 0 {
        let p = shard_of(rows[0], sc);
        let n = run_from(rows, p, sc) as int;
        lemma_run_from_bounds(rows, p, sc);
        let tail = rows.skip(n);
        lemma_save_names_from_rows::<T>(tail, sc);
        let files = save_spec::<T>(rows, sc);
        assert(files.drop_first() =~= save_spec::<T>(tail, sc));
        assert forall|j: int| 0 <= j < files.len() implies exists|k: int|
            0 <= k < rows.len() && (#[trigger] files[j]).name == shard_file_name(
                shard_of(rows[k], sc),
            ) by {
            if j == 0 {
                assert(files[0].name == shard_file_name(shard_of(rows[0], sc)));
            } else {
                assert(files[j] == save_spec::<T>(tail, sc)[j - 1]);
                let k = choose|k: int|
                    0 <= k < tail.len() && (#[trigger] save_spec::<T>(tail, sc)[j - 1]).name
                        == shard_file_name(shard_of(tail[k], sc));
                assert(tail[k] == rows[k + n]);
                assert(files[j].name == shard_file_name(shard_of(rows[k + n], sc)));
            }
        }
    }
}

/// Saving never produces two files with the same name: each shard lands
/// in exactly one file.
pub proof fn lemma_save_names_distinct<T: TableRow>(rows: Seq<RowM<T::V>>, sc: nat)
    requires
        ids_sorted(rows),
    ensures
        forall|i: int, j: int|
            0 <= i < j < save_spec::<T>(rows, sc).len() ==> (#[trigger] save_spec::<T>(
                rows,
                sc,
            )[i]).name != (#[trigger] save_spec::<T>(rows, sc)[j]).name,
    decreases rows.len(),
{
    if rows.len() > 0 {
        let p = shard_of(rows[0], sc);
        let n = run_from(rows, p, sc) as int;
        lemma_run_from_bounds(rows, p, sc);
        let tail = rows.skip(n);
        assert(ids_sorted(tail)) by {
            assert(forall|k: int| 0 <= k < tail.len() ==> tail[k] == #[trigger] rows[k + n]);
            assert forall|a: int, b: int| 0 <= a < b < tail.len() implies lex_lt(
                (#[trigger] tail[a]).id_of(),
                (#[trigger] tail[b]).id_of(),
            ) by {
                assert(lex_lt(rows[a + n].id_of(), rows[b + n].id_of()));
            }
        }
        lemma_save_names_distinct::<T>(tail, sc);
        lemma_save_names_from_rows::<T>(tail, sc);
        let files = save_spec::<T>(rows, sc);
        assert(files.drop_first() =~= save_spec::<T>(tail, sc));
        // Every row past the first run has a shard strictly above `p`, so
        // no later file can repeat the first file's name.
        assert forall|k: int| 0 <= k < tail.len() implies shard_of(#[trigger] tail[k], sc)
            != p by {
            if n < rows.len() {
                assert(tail[k] == rows[k + n]);
                let sb = shard_of(rows[n], sc);
                assert(sb != p);
                if k == 0 {
                } else {
                    assert(lex_lt(rows[n].id_of(), rows[k + n].id_of()));
                    lemma_shard_key_monotone(rows[n].id_of(), rows[k + n].id_of(), sc);
                    let sk = shard_of(rows[k + n], sc);
                    if sk == p {
                        // Then the boundary shard sits strictly between two
                        // equal prefixes, which truncation monotonicity
                        // forbids.
                        assert(lex_lt(rows[0].id_of(), rows[n].id_of()));
                        lemma_shard_key_monotone(rows[0].id_of(), rows[n].id_of(), sc);
                        if lex_lt(p, sb) {
                            if lex_lt(sb, sk) {
                                crate::text::lemma_lex_transitive(p, sb, sk);
                                crate::text::lemma_lex_asymmetric(p, sk);
                            } else {
                                assert(sb == sk);
                            }
                        } else {
                            assert(p == sb);
                        }
                    }
                }
            }
        }
        assert forall|i: int, j: int| 0 <= i < j < files.len() implies (#[trigger] files[
            i]).name != (#[trigger] files[j]).name by {
            if i == 0 {
                let fj = save_spec::<T>(tail, sc)[j - 1];
                assert(files[j] == fj);
                let k = choose|k: int|
                    0 <= k < tail.len() && (#[trigger] save_spec::<T>(tail, sc)[j - 1]).name
                        == shard_file_name(shard_of(tail[k], sc));
                assert(shard_of(tail[k], sc) != p);
                lemma_shard_file_name_injective(p, shard_of(tail[k], sc));
                assert(files[0].name == shard_file_name(p));
            } else {
                assert(files[i] == save_spec::<T>(tail, sc)[i - 1]);
                assert(files[j] == save_spec::<T>(tail, sc)[j - 1]);
            }
        }
    }
}

/// Each saved file renders one contiguous run of the table's rows, which
/// a sorted table keeps sorted by identifier within the file.
pub proof fn lemma_save_lines_are_row_runs<T: TableRow>(rows: Seq<RowM<T::V>>, sc: nat)
    ensures
        forall|j: int|
            0 <= j < save_spec::<T>(rows, sc).len() ==> exists|a: int, b: int|
                0 <= a <= b <= rows.len() && (#[trigger] save_spec::<T>(rows, sc)[j]).content
                    == lines_of::<T>(rows.subrange(a, b)),
    decreases rows.len(),
{
    if rows.len() > 0 {
        let p = shard_of(rows[0], sc);
        let n = run_from(rows, p, sc) as int;
        lemma_run_from_bounds(rows, p, sc);
        let tail = rows.skip(n);
        lemma_save_lines_are_row_runs::<T>(tail, sc);
        let files = save_spec::<T>(rows, sc);
        assert(files.drop_first() =~= save_spec::<T>(tail, sc));
        assert forall|j: int| 0 <= j < files.len() implies exists|a: int, b: int|
            0 <= a <= b <= rows.len() && (#[trigger] files[j]).content == lines_of::<T>(
                rows.subrange(a, b),
            ) by {
            if j == 0 {
                assert(rows.take(n) =~= rows.subrange(0, n));
                assert(files[0].content == lines_of::<T>(rows.subrange(0, n)));
            } else {
                assert(files[j] == save_spec::<T>(tail, sc)[j - 1]);
                let (a, b) = choose|a: int, b: int|
                    0 <= a <= b <= tail.len() && (#[trigger] save_spec::<T>(tail, sc)[j
                        - 1]).content == lines_of::<T>(tail.subrange(a, b));
                assert(tail.subrange(a, b) =~= rows.subrange(a + n, b + n));
                assert(files[j].content == lines_of::<T>(rows.subrange(a + n, b + n)));
            }
        }
    }
}

} // verus!
