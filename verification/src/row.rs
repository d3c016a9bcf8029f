//! Rows and the record contract a table stores.
//!
//! A row is either live — an identifier, a typed payload, and the time of
//! its last change — or a tombstone: an identifier and the time of the
//! deletion, kept so that deletions propagate through merges. On disk both
//! are one JSON object per line, told apart by the presence of a
//! `deleted_at` field.

use vstd::prelude::*;
use crate::json::JField;
use crate::json::JFieldM;
use crate::json::JsonVal;
use crate::json::JsonValM;
use crate::json::fields_view;
use crate::json::fields_wf;
use crate::json::name_wf;
use crate::json::parse_line_spec;
use crate::json::parse_line;
use crate::json::ser_obj;
use crate::json::write_obj;
use crate::json::lemma_parse_ser_obj;
use crate::ts::Timestamp;
use crate::ts::rfc3339_of;
use crate::ts::rfc3339_val;
use crate::ts::ts_format;
use crate::ts::ts_parse;

verus! {

/// The name of the identifier field.
pub open spec fn id_name() -> Seq<char> {
    seq!['i', 'd']
}

/// The name of the change-time field of a live row.
pub open spec fn updated_name() -> Seq<char> {
    seq!['u', 'p', 'd', 'a', 't', 'e', 'd', '_', 'a', 't']
}

/// The name of the deletion-time field of a tombstone.
pub open spec fn deleted_name() -> Seq<char> {
    seq!['d', 'e', 'l', 'e', 't', 'e', 'd', '_', 'a', 't']
}

/// The first value bound to `name` in a field list, if any.
pub open spec fn field_lookup(fields: Seq<JFieldM>, name: Seq<char>) -> Option<JsonValM>
    decreases fields.len(),
{
    if fields.len() == 0 {
        None
    } else if fields[0].name == name {
        Some(fields[0].value)
    } else {
        field_lookup(fields.drop_first(), name)
    }
}

/// Look up the first value bound to `name` in a vector of fields.
pub fn field_lookup_exec<'a>(fields: &'a Vec<JField>, name: &str) -> (r: Option<&'a JsonVal>)
    ensures
        match r {
            Some(v) => field_lookup(fields_view(fields@), name@) == Some(v@),
            None => field_lookup(fields_view(fields@), name@) is None,
        },
{
    let mut i: usize = 0;
    proof {
        assert(fields_view(fields@).skip(0) =~= fields_view(fields@));
    }
    while i < fields.len()
        invariant
            i <= fields.len(),
            field_lookup(fields_view(fields@), name@) == field_lookup(
                fields_view(fields@).skip(i as int),
                name@,
            ),
        decreases fields.len() - i,
    {
        let ghost fv = fields_view(fields@);
        if crate::text::str_eq(fields[i].name.as_str(), name) {
            proof {
                assert(fv.skip(i as int)[0] == fv[i as int]);
            }
            return Some(&fields[i].value);
        }
        proof {
            assert(fv.skip(i as int)[0] == fv[i as int]);
            assert(fv.skip(i as int).drop_first() =~= fv.skip(i + 1));
        }
        i = i + 1;
    }
    proof {
        assert(fields_view(fields@).skip(fields@.len() as int).len() == 0);
    }
    None
}

/// Looking a name up in a concatenation tries the left part first.
pub proof fn lemma_lookup_concat(a: Seq<JFieldM>, b: Seq<JFieldM>, name: Seq<char>)
    ensures
        field_lookup(a + b, name) == match field_lookup(a, name) {
            Some(v) => Some(v),
            None => field_lookup(b, name),
        },
    decreases a.len(),
{
    if a.len() == 0 {
        assert(a + b =~= b);
    } else {
        assert((a + b)[0] == a[0]);
        assert((a + b).drop_first() =~= a.drop_first() + b);
        lemma_lookup_concat(a.drop_first(), b, name);
    }
}

/// What a table needs of a record type: a stable natural key, a fixed
/// table name, shard width and expected capacity, and a faithful encoding
/// of the payload as JSON object fields. Contracts are stated over the
/// record's deep view, its mathematical model.
pub trait TableRow: Sized + DeepView {
    /// The natural key of a payload: the stable string its identifier is
    /// hashed from.
    spec fn key_of(m: Self::V) -> Seq<char>;

    /// The payloads the store can persist.
    spec fn payload_wf(m: Self::V) -> bool;

    /// Every timestamp rendered inside the payload's fields parses back to
    /// itself. Established by `to_fields`, which renders them.
    spec fn payload_round_ok(m: Self::V) -> bool;

    /// The JSON fields a payload is written as.
    spec fn fields_of(m: Self::V) -> Seq<JFieldM>;

    /// The payload a list of JSON fields decodes to, if any. Decoding
    /// reads only the fields named in `claimed_names` and ignores all
    /// others.
    spec fn of_fields(fields: Seq<JFieldM>) -> Option<Self::V>;

    /// The field names the decoder reads.
    spec fn claimed_names() -> Set<Seq<char>>;

    /// The directory name of this record type's table.
    spec fn table_name_spec() -> Seq<char>;

    /// How many leading identifier characters select a shard.
    spec fn shard_chars_spec() -> nat;

    /// The expected number of rows, which fixes the identifier length.
    spec fn capacity_spec() -> nat;

    /// The natural key of this record.
    fn key(&self) -> (r: String)
        ensures
            r@ == Self::key_of(self.deep_view()),
    ;

    /// Encode this record as JSON object fields.
    fn to_fields(&self) -> (r: Vec<JField>)
        requires
            Self::payload_wf(self.deep_view()),
        ensures
            fields_view(r@) == Self::fields_of(self.deep_view()),
            Self::payload_round_ok(self.deep_view()),
    ;

    /// Decode a record from JSON object fields.
    fn from_fields(fields: &Vec<JField>) -> (r: Option<Self>)
        ensures
            match r {
                Some(x) => Self::of_fields(fields_view(fields@)) == Some(x.deep_view()),
                None => Self::of_fields(fields_view(fields@)) is None,
            },
    ;

    /// Whether two records carry the same payload.
    fn same_payload(&self, other: &Self) -> (r: bool)
        ensures
            r == (self.deep_view() == other.deep_view()),
    ;

    /// A copy of this record with the same payload.
    fn dup(&self) -> (r: Self)
        ensures
            r.deep_view() == self.deep_view(),
    ;

    /// The directory name of this record type's table.
    fn table_name() -> (r: String)
        ensures
            r@ == Self::table_name_spec(),
    ;

    /// How many leading identifier characters select a shard.
    fn shard_chars() -> (r: usize)
        ensures
            r as nat == Self::shard_chars_spec(),
    ;

    /// The expected number of rows.
    fn expected_capacity() -> (r: usize)
        ensures
            r as nat == Self::capacity_spec(),
    ;

    /// The encoding is well-formed: every field round-trips through the
    /// writer, carries a claimed name, and the claimed names leave the
    /// row-level names alone.
    proof fn lemma_fields_wf(m: Self::V)
        requires
            Self::payload_wf(m),
        ensures
            fields_wf(Self::fields_of(m)),
            forall|i: int|
                0 <= i < Self::fields_of(m).len() ==> Self::claimed_names().contains(
                    #[trigger] Self::fields_of(m)[i].name,
                ),
            !Self::claimed_names().contains(id_name()),
            !Self::claimed_names().contains(updated_name()),
            !Self::claimed_names().contains(deleted_name()),
    ;

    /// Decoding reads only the claimed fields.
    proof fn lemma_of_fields_lookups(a: Seq<JFieldM>, b: Seq<JFieldM>)
        requires
            forall|n: Seq<char>|
                Self::claimed_names().contains(n) ==> field_lookup(a, n) == field_lookup(b, n),
        ensures
            Self::of_fields(a) == Self::of_fields(b),
    ;

    /// Decoding inverts encoding.
    proof fn lemma_fields_roundtrip(m: Self::V)
        requires
            Self::payload_wf(m),
            Self::payload_round_ok(m),
        ensures
            Self::of_fields(Self::fields_of(m)) == Some(m),
    ;

    /// Every decoded payload can be persisted again.
    proof fn lemma_of_fields_wf(fields: Seq<JFieldM>)
        ensures
            match Self::of_fields(fields) {
                Some(m) => Self::payload_wf(m),
                None => true,
            },
    ;
}

/// A stored row: a live record or a tombstone left by a deletion.
pub enum Row<T> {
    Tombstone { id: String, deleted_at: Timestamp },
    Live { id: String, inner: T, updated_at: Option<Timestamp> },
}

/// The model of a row over the payload model `P`.
pub enum RowM<P> {
    Tombstone { id: Seq<char>, deleted_at: Timestamp },
    Live { id: Seq<char>, payload: P, updated_at: Option<Timestamp> },
}

impl<T: DeepView> DeepView for Row<T> {
    type V = RowM<T::V>;

    open spec fn deep_view(&self) -> RowM<T::V> {
        match self {
            Row::Tombstone { id, deleted_at } => RowM::Tombstone {
                id: id@,
                deleted_at: *deleted_at,
            },
            Row::Live { id, inner, updated_at } => RowM::Live {
                id: id@,
                payload: inner.deep_view(),
                updated_at: *updated_at,
            },
        }
    }
}

impl<P> RowM<P> {
    /// The identifier of a row model.
    pub open spec fn id_of(self) -> Seq<char> {
        match self {
            RowM::Tombstone { id, .. } => id,
            RowM::Live { id, .. } => id,
        }
    }

    /// The time that decides merges: the deletion time of a tombstone, the
    /// change time of a live row (`None` counts as earliest).
    pub open spec fn stamp_of(self) -> Option<Timestamp> {
        match self {
            RowM::Tombstone { deleted_at, .. } => Some(deleted_at),
            RowM::Live { updated_at, .. } => updated_at,
        }
    }
}

impl<T: TableRow> Row<T> {
    /// A copy of this row with the same model.
    pub fn dup_row(&self) -> (r: Row<T>)
        ensures
            r.deep_view() == self.deep_view(),
    {
        match self {
            Row::Tombstone { id, deleted_at } => Row::Tombstone {
                id: id.clone(),
                deleted_at: *deleted_at,
            },
            Row::Live { id, inner, updated_at } => Row::Live {
                id: id.clone(),
                inner: inner.dup(),
                updated_at: *updated_at,
            },
        }
    }

    /// The identifier of this row.
    pub fn id(&self) -> (r: &str)
        ensures
            r@ == self.deep_view().id_of(),
    {
        match self {
            Row::Tombstone { id, .. } => id.as_str(),
            Row::Live { id, .. } => id.as_str(),
        }
    }
}

/// A row the store can persist: timestamps in range, payload persistable.
pub open spec fn row_wf<T: TableRow>(m: RowM<T::V>) -> bool {
    match m {
        RowM::Tombstone { id, deleted_at } => deleted_at.wf(),
        RowM::Live { id, payload, updated_at } => T::payload_wf(payload) && match updated_at {
            Some(t) => t.wf(),
            None => true,
        },
    }
}

/// The JSON fields a row is written as: the identifier first, then for a
/// tombstone its deletion time, for a live row the payload fields and its
/// change time (`null` when unknown).
pub open spec fn row_fields<T: TableRow>(m: RowM<T::V>) -> Seq<JFieldM> {
    match m {
        RowM::Tombstone { id, deleted_at } => seq![
            JFieldM { name: id_name(), value: JsonValM::Str(id) },
            JFieldM {
                name: deleted_name(),
                value: JsonValM::Str(rfc3339_of(deleted_at.secs as int, deleted_at.nanos as int)),
            },
        ],
        RowM::Live { id, payload, updated_at } => seq![
            JFieldM { name: id_name(), value: JsonValM::Str(id) },
        ] + T::fields_of(payload) + seq![
            JFieldM {
                name: updated_name(),
                value: match updated_at {
                    Some(t) => JsonValM::Str(rfc3339_of(t.secs as int, t.nanos as int)),
                    None => JsonValM::Null,
                },
            },
        ],
    }
}

/// The canonical line a row is written as.
pub open spec fn row_line<T: TableRow>(m: RowM<T::V>) -> Seq<char> {
    ser_obj(row_fields::<T>(m))
}

/// The row a parsed field list decodes to, if any: the `id` field names
/// the row, a `deleted_at` field makes it a tombstone, and otherwise the
/// payload is decoded from the claimed fields, with `updated_at` read when
/// present. Timestamps must denote persistable instants.
pub open spec fn row_of_fields<T: TableRow>(fields: Seq<JFieldM>) -> Option<RowM<T::V>> {
    match field_lookup(fields, id_name()) {
        Some(JsonValM::Str(id)) => match field_lookup(fields, deleted_name()) {
            Some(JsonValM::Str(d)) => match rfc3339_val(d) {
                Some(t) => if t.wf() {
                    Some(RowM::Tombstone { id: id, deleted_at: t })
                } else {
                    None
                },
                None => None,
            },
            Some(_) => None,
            None => {
                let upd = match field_lookup(fields, updated_name()) {
                    Some(JsonValM::Str(u)) => match rfc3339_val(u) {
                        Some(t) => if t.wf() {
                            Some(Some(t))
                        } else {
                            None
                        },
                        None => None,
                    },
                    Some(JsonValM::Null) => Some(None),
                    Some(_) => None,
                    None => Some(None),
                };
                match upd {
                    Some(updated_at) => match T::of_fields(fields) {
                        Some(p) => Some(
                            RowM::Live { id: id, payload: p, updated_at: updated_at },
                        ),
                        None => None,
                    },
                    None => None,
                }
            },
        },
        Some(_) => None,
        None => None,
    }
}

/// The row a whole line decodes to, if any.
pub open spec fn row_parse_spec<T: TableRow>(s: Seq<char>) -> Option<RowM<T::V>> {
    match parse_line_spec(s) {
        Some(fields) => row_of_fields::<T>(fields),
        None => None,
    }
}

/// Every timestamp rendered in the row parses back to itself. Established
/// by `write_row`, which renders them.
pub open spec fn row_round_ok<T: TableRow>(m: RowM<T::V>) -> bool {
    match m {
        RowM::Tombstone { id, deleted_at } => crate::ts::ts_round(deleted_at),
        RowM::Live { id, payload, updated_at } => T::payload_round_ok(payload) && match updated_at {
            Some(t) => crate::ts::ts_round(t),
            None => true,
        },
    }
}

/// A name bound nowhere in a field list has no lookup result.
proof fn lemma_lookup_absent(fields: Seq<JFieldM>, name: Seq<char>)
    requires
        forall|i: int| 0 <= i < fields.len() ==> (#[trigger] fields[i].name) != name,
    ensures
        field_lookup(fields, name) is None,
    decreases fields.len(),
{
    if fields.len() > 0 {
        assert(fields[0].name != name);
        lemma_lookup_absent(fields.drop_first(), name);
    }
}

proof fn lemma_lookup_single(f: JFieldM, name: Seq<char>)
    ensures
        field_lookup(seq![f], name) == if f.name == name {
            Some(f.value)
        } else {
            None
        },
{
    let s = seq![f];
    assert(s.len() == 1);
    assert(s[0] == f);
    if f.name != name {
        assert(s.drop_first() =~= Seq::<JFieldM>::empty());
        assert(field_lookup(s.drop_first(), name) is None);
    }
}

/// The names a row's fields can never take from a payload.
proof fn lemma_row_names_distinct()
    ensures
        id_name() != deleted_name(),
        id_name() != updated_name(),
        updated_name() != deleted_name(),
{
    assert(id_name().len() != deleted_name().len());
    assert(id_name().len() != updated_name().len());
    assert(updated_name()[0] == 'u');
    assert(deleted_name()[0] == 'd');
    if updated_name() == deleted_name() {
        assert(updated_name()[0] == deleted_name()[0]);
    }
}

/// The row-level field names are plain.
proof fn lemma_row_names_wf()
    ensures
        name_wf(id_name()),
        name_wf(updated_name()),
        name_wf(deleted_name()),
{
    assert forall|i: int| 0 <= i < id_name().len() implies crate::json::plain_char(
        #[trigger] id_name()[i],
    ) by {
        assert(('i' as nat) >= 32 && ('d' as nat) >= 32);
    }
    assert forall|i: int| 0 <= i < updated_name().len() implies crate::json::plain_char(
        #[trigger] updated_name()[i],
    ) by {
        assert(('u' as nat) >= 32 && ('p' as nat) >= 32 && ('d' as nat) >= 32 && ('a' as nat)
            >= 32 && ('t' as nat) >= 32 && ('e' as nat) >= 32 && ('_' as nat) >= 32);
    }
    assert forall|i: int| 0 <= i < deleted_name().len() implies crate::json::plain_char(
        #[trigger] deleted_name()[i],
    ) by {
        assert(('d' as nat) >= 32 && ('e' as nat) >= 32 && ('l' as nat) >= 32 && ('t' as nat)
            >= 32 && ('_' as nat) >= 32 && ('a' as nat) >= 32);
    }
}

/// Parsing the canonical line of a persistable row yields the row back.
pub proof fn lemma_row_roundtrip<T: TableRow>(m: RowM<T::V>)
    requires
        row_wf::<T>(m),
        row_round_ok::<T>(m),
    ensures
        row_parse_spec::<T>(row_line::<T>(m)) == Some(m),
{
    lemma_row_names_distinct();
    lemma_row_names_wf();
    let fields = row_fields::<T>(m);
    match m {
        RowM::Tombstone { id, deleted_at } => {
            let f_id = JFieldM { name: id_name(), value: JsonValM::Str(id) };
            let f_del = JFieldM {
                name: deleted_name(),
                value: JsonValM::Str(
                    rfc3339_of(deleted_at.secs as int, deleted_at.nanos as int),
                ),
            };
            assert(fields =~= seq![f_id, f_del]);
            assert(fields_wf(fields)) by {
                assert(fields[0].name == id_name() && fields[1].name == deleted_name());
            }
            lemma_parse_ser_obj(fields);
            // Lookups.
            assert(field_lookup(fields, id_name()) == Some(JsonValM::Str(id)));
            assert(fields.drop_first() =~= seq![f_del]);
            assert(field_lookup(fields, deleted_name()) == field_lookup(
                seq![f_del],
                deleted_name(),
            ));
            lemma_lookup_single(f_del, deleted_name());
            assert(rfc3339_val(rfc3339_of(deleted_at.secs as int, deleted_at.nanos as int))
                == Some(deleted_at));
            assert(row_of_fields::<T>(fields) == Some(m));
        },
        RowM::Live { id, payload, updated_at } => {
            let f_id = JFieldM { name: id_name(), value: JsonValM::Str(id) };
            let f_upd = JFieldM {
                name: updated_name(),
                value: match updated_at {
                    Some(t) => JsonValM::Str(rfc3339_of(t.secs as int, t.nanos as int)),
                    None => JsonValM::Null,
                },
            };
            let pf = T::fields_of(payload);
            T::lemma_fields_wf(payload);
            assert(fields == seq![f_id] + pf + seq![f_upd]);
            assert(fields_wf(fields)) by {
                assert forall|i: int| 0 <= i < fields.len() implies name_wf(
                    #[trigger] fields[i].name,
                ) && crate::json::val_wf(fields[i].value) by {
                    if i == 0 {
                        assert(fields[i] == f_id);
                    } else if i < 1 + pf.len() {
                        assert(fields[i] == pf[i - 1]);
                        assert(fields_wf(pf));
                    } else {
                        assert(fields[i] == f_upd);
                    }
                }
            }
            lemma_parse_ser_obj(fields);
            // Lookups through the three segments.
            lemma_lookup_concat(seq![f_id] + pf, seq![f_upd], id_name());
            lemma_lookup_concat(seq![f_id], pf, id_name());
            lemma_lookup_single(f_id, id_name());
            assert(field_lookup(fields, id_name()) == Some(JsonValM::Str(id)));

            assert(forall|i: int| 0 <= i < pf.len() ==> (#[trigger] pf[i].name)
                != deleted_name());
            lemma_lookup_absent(pf, deleted_name());
            lemma_lookup_concat(seq![f_id] + pf, seq![f_upd], deleted_name());
            lemma_lookup_concat(seq![f_id], pf, deleted_name());
            lemma_lookup_single(f_id, deleted_name());
            lemma_lookup_single(f_upd, deleted_name());
            assert(field_lookup(fields, deleted_name()) is None);

            assert(forall|i: int| 0 <= i < pf.len() ==> (#[trigger] pf[i].name)
                != updated_name());
            lemma_lookup_absent(pf, updated_name());
            lemma_lookup_concat(seq![f_id] + pf, seq![f_upd], updated_name());
            lemma_lookup_concat(seq![f_id], pf, updated_name());
            lemma_lookup_single(f_id, updated_name());
            lemma_lookup_single(f_upd, updated_name());
            assert(field_lookup(fields, updated_name()) == Some(f_upd.value));

            // The payload decoder sees the same claimed lookups.
            assert forall|n: Seq<char>| T::claimed_names().contains(n) implies field_lookup(
                fields,
                n,
            ) == field_lookup(pf, n) by {
                lemma_lookup_concat(seq![f_id] + pf, seq![f_upd], n);
                lemma_lookup_concat(seq![f_id], pf, n);
                lemma_lookup_single(f_id, n);
                lemma_lookup_single(f_upd, n);
            }
            T::lemma_of_fields_lookups(fields, pf);
            T::lemma_fields_roundtrip(payload);
            match updated_at {
                Some(t) => {
                    assert(rfc3339_val(rfc3339_of(t.secs as int, t.nanos as int)) == Some(t));
                },
                None => {},
            }
            assert(row_of_fields::<T>(fields) == Some(m));
        },
    }
}

/// Build the literal name of the identifier field.
fn make_id_name() -> (r: String)
    ensures
        r@ == id_name(),
{
    let r = String::from_str("id");
    proof {
        reveal_strlit("id");
        assert(r@ =~= id_name());
    }
    r
}

/// Build the literal name of the change-time field.
fn make_updated_name() -> (r: String)
    ensures
        r@ == updated_name(),
{
    let r = String::from_str("updated_at");
    proof {
        reveal_strlit("updated_at");
        assert(r@ =~= updated_name());
    }
    r
}

/// Build the literal name of the deletion-time field.
fn make_deleted_name() -> (r: String)
    ensures
        r@ == deleted_name(),
{
    let r = String::from_str("deleted_at");
    proof {
        reveal_strlit("deleted_at");
        assert(r@ =~= deleted_name());
    }
    r
}

/// Write a row as its canonical line (without the trailing newline). The
/// line parses back to the row.
pub fn write_row<T: TableRow>(row: &Row<T>) -> (r: String)
    requires
        row_wf::<T>(row.deep_view()),
    ensures
        r@ == row_line::<T>(row.deep_view()),
        row_parse_spec::<T>(r@) == Some(row.deep_view()),
        row_round_ok::<T>(row.deep_view()),
{
    let mut fields: Vec<JField> = Vec::new();
    match row {
        Row::Tombstone { id, deleted_at } => {
            fields.push(JField { name: make_id_name(), value: JsonVal::Str(id.clone()) });
            fields.push(
                JField { name: make_deleted_name(), value: JsonVal::Str(ts_format(deleted_at)) },
            );
            proof {
                assert(fields_view(fields@) =~= row_fields::<T>(row.deep_view()));
            }
        },
        Row::Live { id, inner, updated_at } => {
            fields.push(JField { name: make_id_name(), value: JsonVal::Str(id.clone()) });
            let mut pf = inner.to_fields();
            fields.append(&mut pf);
            let uv = match updated_at {
                Some(t) => JsonVal::Str(ts_format(t)),
                None => JsonVal::Null,
            };
            fields.push(JField { name: make_updated_name(), value: uv });
            proof {
                assert(fields_view(fields@) =~= row_fields::<T>(row.deep_view()));
            }
        },
    }
    let mut out = String::new();
    write_obj(&mut out, &fields);
    proof {
        lemma_row_roundtrip::<T>(row.deep_view());
    }
    out
}

/// Read a row back from one line of a shard file.
pub fn parse_row<T: TableRow>(line: &str) -> (r: Option<Row<T>>)
    ensures
        match r {
            Some(row) => row_parse_spec::<T>(line@) == Some(row.deep_view()) && row_wf::<T>(
                row.deep_view(),
            ),
            None => row_parse_spec::<T>(line@) is None,
        },
{
    let fields = match parse_line(line) {
        Some(f) => f,
        None => {
            return None;
        },
    };
    let id_key = make_id_name();
    let id: String = match field_lookup_exec(&fields, id_key.as_str()) {
        Some(JsonVal::Str(s)) => s.clone(),
        Some(_) => {
            return None;
        },
        None => {
            return None;
        },
    };
    let del_key = make_deleted_name();
    match field_lookup_exec(&fields, del_key.as_str()) {
        Some(JsonVal::Str(d)) => {
            match ts_parse(d.as_str()) {
                Some(t) => {
                    if t.is_wf() {
                        Some(Row::Tombstone { id, deleted_at: t })
                    } else {
                        None
                    }
                },
                None => None,
            }
        },
        Some(_) => None,
        None => {
            let upd_key = make_updated_name();
            let updated_at: Option<Timestamp> = match field_lookup_exec(
                &fields,
                upd_key.as_str(),
            ) {
                Some(JsonVal::Str(u)) => {
                    match ts_parse(u.as_str()) {
                        Some(t) => {
                            if t.is_wf() {
                                Some(t)
                            } else {
                                return None;
                            }
                        },
                        None => {
                            return None;
                        },
                    }
                },
                Some(JsonVal::Null) => None,
                Some(_) => {
                    return None;
                },
                None => None,
            };
            match T::from_fields(&fields) {
                Some(inner) => {
                    proof {
                        T::lemma_of_fields_wf(fields_view(fields@));
                    }
                    Some(Row::Live { id, inner, updated_at })
                },
                None => None,
            }
        },
    }
}

/// The fields of a persistable row are well-formed.
pub proof fn lemma_row_fields_wf<T: TableRow>(m: RowM<T::V>)
    requires
        row_wf::<T>(m),
    ensures
        fields_wf(row_fields::<T>(m)),
{
    lemma_row_names_wf();
    let fields = row_fields::<T>(m);
    match m {
        RowM::Tombstone { id, deleted_at } => {
            assert(fields[0].name == id_name() && fields[1].name == deleted_name());
            assert(fields_wf(fields)) by {
                assert forall|i: int| 0 <= i < fields.len() implies name_wf(
                    #[trigger] fields[i].name,
                ) && crate::json::val_wf(fields[i].value) by {
                    if i == 0 {
                    } else {
                        assert(i == 1);
                    }
                }
            }
        },
        RowM::Live { id, payload, updated_at } => {
            let f_id = JFieldM { name: id_name(), value: JsonValM::Str(id) };
            let f_upd = JFieldM {
                name: updated_name(),
                value: match updated_at {
                    Some(t) => JsonValM::Str(rfc3339_of(t.secs as int, t.nanos as int)),
                    None => JsonValM::Null,
                },
            };
            let pf = T::fields_of(payload);
            T::lemma_fields_wf(payload);
            assert(fields == seq![f_id] + pf + seq![f_upd]);
            assert(fields_wf(fields)) by {
                assert forall|i: int| 0 <= i < fields.len() implies name_wf(
                    #[trigger] fields[i].name,
                ) && crate::json::val_wf(fields[i].value) by {
                    if i == 0 {
                        assert(fields[i] == f_id);
                    } else if i < 1 + pf.len() {
                        assert(fields[i] == pf[i - 1]);
                        assert(fields_wf(pf));
                    } else {
                        assert(fields[i] == f_upd);
                    }
                }
            }
        },
    }
}

/// A row's canonical line has no raw newline and opens with a brace.
pub proof fn lemma_row_line_plain<T: TableRow>(m: RowM<T::V>)
    requires
        row_wf::<T>(m),
    ensures
        crate::json::no_newline(row_line::<T>(m)),
        row_line::<T>(m).len() > 0,
        !crate::json::is_json_ws(row_line::<T>(m)[0]),
{
    lemma_row_fields_wf::<T>(m);
    crate::json::lemma_ser_obj_line(row_fields::<T>(m));
}

} // verus!
