//! The two record types the reader stores: feed subscriptions and posts.

use vstd::prelude::*;
use crate::json::JField;
use crate::json::JFieldM;
use crate::json::JsonVal;
use crate::json::JsonValM;
use crate::json::fields_view;
use crate::json::fields_wf;
use crate::json::name_wf;
use crate::row::TableRow;
use crate::row::field_lookup;
use crate::row::field_lookup_exec;
use crate::row::id_name;
use crate::row::updated_name;
use crate::row::deleted_name;
use crate::ts::Timestamp;
use crate::ts::rfc3339_of;
use crate::ts::rfc3339_val;
use crate::ts::ts_format;
use crate::ts::ts_parse;
use crate::ts::ts_round;

verus! {

/// Metadata a feed document carries about itself.
pub struct FeedMeta {
    pub title: String,
    pub site_url: String,
    pub description: String,
}

/// A feed subscription. Its natural key is the feed URL.
pub struct FeedSource {
    pub url: String,
    pub title: String,
    pub site_url: String,
    pub description: String,
}

/// The model of a feed subscription.
pub struct FeedSourceV {
    pub url: Seq<char>,
    pub title: Seq<char>,
    pub site_url: Seq<char>,
    pub description: Seq<char>,
}

impl DeepView for FeedSource {
    type V = FeedSourceV;

    open spec fn deep_view(&self) -> FeedSourceV {
        FeedSourceV {
            url: self.url@,
            title: self.title@,
            site_url: self.site_url@,
            description: self.description@,
        }
    }
}

/// A post read from a feed. Its natural key is the raw identifier the
/// feed supplied; `feed` holds the identifier of the subscription it came
/// from.
pub struct FeedItem {
    pub title: String,
    pub date: Option<Timestamp>,
    pub feed: String,
    pub link: String,
    pub raw_id: String,
}

/// The model of a post.
pub struct FeedItemV {
    pub title: Seq<char>,
    pub date: Option<Timestamp>,
    pub feed: Seq<char>,
    pub link: Seq<char>,
    pub raw_id: Seq<char>,
}

impl DeepView for FeedItem {
    type V = FeedItemV;

    open spec fn deep_view(&self) -> FeedItemV {
        FeedItemV {
            title: self.title@,
            date: self.date,
            feed: self.feed@,
            link: self.link@,
            raw_id: self.raw_id@,
        }
    }
}

/// A required string field: present and a string, or the decode fails.
pub open spec fn req_str(fields: Seq<JFieldM>, name: Seq<char>) -> Option<Seq<char>> {
    match field_lookup(fields, name) {
        Some(JsonValM::Str(t)) => Some(t),
        _ => None,
    }
}

/// An optional string field: absent means empty, any non-string fails.
pub open spec fn opt_str(fields: Seq<JFieldM>, name: Seq<char>) -> Option<Seq<char>> {
    match field_lookup(fields, name) {
        Some(JsonValM::Str(t)) => Some(t),
        Some(_) => None,
        None => Some(Seq::empty()),
    }
}

/// Look up a required string field.
fn req_str_exec(fields: &Vec<JField>, name: &str) -> (r: Option<String>)
    ensures
        match r {
            Some(t) => req_str(fields_view(fields@), name@) == Some(t@),
            None => req_str(fields_view(fields@), name@) is None,
        },
{
    match field_lookup_exec(fields, name) {
        Some(v) => match v {
            JsonVal::Str(t) => Some(t.clone()),
            _ => None,
        },
        None => None,
    }
}

/// Look up an optional string field, absent meaning empty.
fn opt_str_exec(fields: &Vec<JField>, name: &str) -> (r: Option<String>)
    ensures
        match r {
            Some(t) => opt_str(fields_view(fields@), name@) == Some(t@),
            None => opt_str(fields_view(fields@), name@) is None,
        },
{
    match field_lookup_exec(fields, name) {
        Some(v) => match v {
            JsonVal::Str(t) => Some(t.clone()),
            _ => None,
        },
        None => {
            let r = String::new();
            proof {
                assert(r@ =~= Seq::<char>::empty());
            }
            Some(r)
        },
    }
}

/// The names of a subscription's fields.
pub open spec fn url_name() -> Seq<char> {
    seq!['u', 'r', 'l']
}

pub open spec fn title_name() -> Seq<char> {
    seq!['t', 'i', 't', 'l', 'e']
}

pub open spec fn site_url_name() -> Seq<char> {
    seq!['s', 'i', 't', 'e', '_', 'u', 'r', 'l']
}

pub open spec fn description_name() -> Seq<char> {
    seq!['d', 'e', 's', 'c', 'r', 'i', 'p', 't', 'i', 'o', 'n']
}

/// The names of a post's fields.
pub open spec fn date_name() -> Seq<char> {
    seq!['d', 'a', 't', 'e']
}

pub open spec fn feed_name() -> Seq<char> {
    seq!['f', 'e', 'e', 'd']
}

pub open spec fn link_name() -> Seq<char> {
    seq!['l', 'i', 'n', 'k']
}

pub open spec fn raw_id_name() -> Seq<char> {
    seq!['r', 'a', 'w', '_', 'i', 'd']
}

impl TableRow for FeedSource {
    open spec fn key_of(m: FeedSourceV) -> Seq<char> {
        m.url
    }

    open spec fn payload_wf(m: FeedSourceV) -> bool {
        true
    }

    open spec fn payload_round_ok(m: FeedSourceV) -> bool {
        true
    }

    open spec fn fields_of(m: FeedSourceV) -> Seq<JFieldM> {
        seq![
            JFieldM { name: url_name(), value: JsonValM::Str(m.url) },
            JFieldM { name: title_name(), value: JsonValM::Str(m.title) },
            JFieldM { name: site_url_name(), value: JsonValM::Str(m.site_url) },
            JFieldM { name: description_name(), value: JsonValM::Str(m.description) },
        ]
    }

    open spec fn of_fields(fields: Seq<JFieldM>) -> Option<FeedSourceV> {
        match req_str(fields, url_name()) {
            Some(url) => match opt_str(fields, title_name()) {
                Some(title) => match opt_str(fields, site_url_name()) {
                    Some(site_url) => match opt_str(fields, description_name()) {
                        Some(description) => Some(
                            FeedSourceV { url, title, site_url, description },
                        ),
                        None => None,
                    },
                    None => None,
                },
                None => None,
            },
            None => None,
        }
    }

    open spec fn claimed_names() -> Set<Seq<char>> {
        set![url_name(), title_name(), site_url_name(), description_name()]
    }

    open spec fn table_name_spec() -> Seq<char> {
        seq!['f', 'e', 'e', 'd', 's']
    }

    open spec fn shard_chars_spec() -> nat {
        0
    }

    open spec fn capacity_spec() -> nat {
        50_000
    }

    fn key(&self) -> (r: String) {
        self.url.clone()
    }

    fn to_fields(&self) -> (r: Vec<JField>) {
        let mut out: Vec<JField> = Vec::new();
        out.push(JField { name: url_key(), value: JsonVal::Str(self.url.clone()) });
        out.push(
            JField { name: title_key(), value: JsonVal::Str(self.title.clone()) },
        );
        out.push(
            JField {
                name: site_url_key(),
                value: JsonVal::Str(self.site_url.clone()),
            },
        );
        out.push(
            JField {
                name: description_key(),
                value: JsonVal::Str(self.description.clone()),
            },
        );
        proof {
            assert(fields_view(out@) =~= Self::fields_of(self.deep_view()));
        }
        out
    }

    fn from_fields(fields: &Vec<JField>) -> (r: Option<FeedSource>) {
        let url = match req_str_exec(fields, "url") {
            Some(u) => u,
            None => {
                proof {
                    reveal_strlit("url");
                    assert("url"@ =~= url_name());
                }
                return None;
            },
        };
        proof {
            reveal_strlit("url");
            assert("url"@ =~= url_name());
        }
        let title = match opt_str_exec(fields, "title") {
            Some(t) => t,
            None => {
                proof {
                    reveal_strlit("title");
                    assert("title"@ =~= title_name());
                }
                return None;
            },
        };
        proof {
            reveal_strlit("title");
            assert("title"@ =~= title_name());
        }
        let site_url = match opt_str_exec(fields, "site_url") {
            Some(t) => t,
            None => {
                proof {
                    reveal_strlit("site_url");
                    assert("site_url"@ =~= site_url_name());
                }
                return None;
            },
        };
        proof {
            reveal_strlit("site_url");
            assert("site_url"@ =~= site_url_name());
        }
        let description = match opt_str_exec(fields, "description") {
            Some(t) => t,
            None => {
                proof {
                    reveal_strlit("description");
                    assert("description"@ =~= description_name());
                }
                return None;
            },
        };
        proof {
            reveal_strlit("description");
            assert("description"@ =~= description_name());
        }
        Some(FeedSource { url, title, site_url, description })
    }

    fn same_payload(&self, other: &Self) -> (r: bool) {
        let r = self.url == other.url && self.title == other.title && self.site_url
            == other.site_url && self.description == other.description;
        proof {
            if r {
                assert(self.deep_view() == other.deep_view());
            } else {
                if self.deep_view() == other.deep_view() {
                    assert(self.url@ == other.url@);
                    assert(self.title@ == other.title@);
                    assert(self.site_url@ == other.site_url@);
                    assert(self.description@ == other.description@);
                }
            }
        }
        r
    }

    fn dup(&self) -> (r: Self) {
        FeedSource {
            url: self.url.clone(),
            title: self.title.clone(),
            site_url: self.site_url.clone(),
            description: self.description.clone(),
        }
    }

    fn table_name() -> (r: String) {
        let r = String::from_str("feeds");
        proof {
            reveal_strlit("feeds");
            assert(r@ =~= Self::table_name_spec());
        }
        r
    }

    fn shard_chars() -> (r: usize) {
        0
    }

    fn expected_capacity() -> (r: usize) {
        50_000
    }

    proof fn lemma_fields_wf(m: FeedSourceV) {
        lemma_feed_source_names();
        let fs = Self::fields_of(m);
        assert forall|i: int| 0 <= i < fs.len() implies name_wf(#[trigger] fs[i].name)
            && crate::json::val_wf(fs[i].value) by {
            if i == 0 {
            } else if i == 1 {
            } else if i == 2 {
            } else {
                assert(i == 3);
            }
        }
        assert forall|i: int| 0 <= i < fs.len() implies Self::claimed_names().contains(
            #[trigger] fs[i].name,
        ) by {
            if i == 0 {
            } else if i == 1 {
            } else if i == 2 {
            } else {
                assert(i == 3);
            }
        }
    }

    proof fn lemma_of_fields_lookups(a: Seq<JFieldM>, b: Seq<JFieldM>) {
        assert(Self::claimed_names().contains(url_name()));
        assert(Self::claimed_names().contains(title_name()));
        assert(Self::claimed_names().contains(site_url_name()));
        assert(Self::claimed_names().contains(description_name()));
        assert(field_lookup(a, url_name()) == field_lookup(b, url_name()));
        assert(field_lookup(a, title_name()) == field_lookup(b, title_name()));
        assert(field_lookup(a, site_url_name()) == field_lookup(b, site_url_name()));
        assert(field_lookup(a, description_name()) == field_lookup(b, description_name()));
    }

    proof fn lemma_fields_roundtrip(m: FeedSourceV) {
        lemma_feed_source_names();
        let fs = Self::fields_of(m);
        lemma_lookup_four(fs);
    }

    proof fn lemma_of_fields_wf(fields: Seq<JFieldM>) {
    }
}

/// The field names of a subscription are pairwise distinct, distinct from
/// the row-level names, and plain.
proof fn lemma_feed_source_names()
    ensures
        url_name() != title_name(),
        url_name() != site_url_name(),
        url_name() != description_name(),
        title_name() != site_url_name(),
        title_name() != description_name(),
        site_url_name() != description_name(),
        !FeedSource::claimed_names().contains(id_name()),
        !FeedSource::claimed_names().contains(updated_name()),
        !FeedSource::claimed_names().contains(deleted_name()),
        name_wf(url_name()),
        name_wf(title_name()),
        name_wf(site_url_name()),
        name_wf(description_name()),
{
    assert(url_name().len() != title_name().len());
    assert(url_name().len() != site_url_name().len());
    assert(url_name().len() != description_name().len());
    assert(title_name().len() != site_url_name().len());
    assert(title_name().len() != description_name().len());
    assert(site_url_name().len() != description_name().len());
    assert(id_name().len() == 2 && updated_name().len() == 10 && deleted_name().len() == 10);
    assert(url_name().len() == 3 && title_name().len() == 5 && site_url_name().len() == 8
        && description_name().len() == 11);
    assert forall|i: int| 0 <= i < url_name().len() implies crate::json::plain_char(
        #[trigger] url_name()[i],
    ) by {
        assert(('u' as nat) >= 32 && ('r' as nat) >= 32 && ('l' as nat) >= 32);
    }
    assert forall|i: int| 0 <= i < title_name().len() implies crate::json::plain_char(
        #[trigger] title_name()[i],
    ) by {
        assert(('t' as nat) >= 32 && ('i' as nat) >= 32 && ('l' as nat) >= 32 && ('e' as nat)
            >= 32);
    }
    assert forall|i: int| 0 <= i < site_url_name().len() implies crate::json::plain_char(
        #[trigger] site_url_name()[i],
    ) by {
        assert(('s' as nat) >= 32 && ('i' as nat) >= 32 && ('t' as nat) >= 32 && ('e' as nat)
            >= 32 && ('_' as nat) >= 32 && ('u' as nat) >= 32 && ('r' as nat) >= 32 && (
        'l' as nat) >= 32);
    }
    assert forall|i: int| 0 <= i < description_name().len() implies crate::json::plain_char(
        #[trigger] description_name()[i],
    ) by {
        assert(('d' as nat) >= 32 && ('e' as nat) >= 32 && ('s' as nat) >= 32 && ('c' as nat)
            >= 32 && ('r' as nat) >= 32 && ('i' as nat) >= 32 && ('p' as nat) >= 32 && (
        't' as nat) >= 32 && ('o' as nat) >= 32 && ('n' as nat) >= 32);
    }
}

/// Unfold the lookups of a subscription's four fields.
proof fn lemma_lookup_four(fs: Seq<JFieldM>)
    requires
        fs.len() == 4,
        fs[0].name == url_name(),
        fs[1].name == title_name(),
        fs[2].name == site_url_name(),
        fs[3].name == description_name(),
        url_name() != title_name(),
        url_name() != site_url_name(),
        url_name() != description_name(),
        title_name() != site_url_name(),
        title_name() != description_name(),
        site_url_name() != description_name(),
    ensures
        field_lookup(fs, url_name()) == Some(fs[0].value),
        field_lookup(fs, title_name()) == Some(fs[1].value),
        field_lookup(fs, site_url_name()) == Some(fs[2].value),
        field_lookup(fs, description_name()) == Some(fs[3].value),
{
    let t1 = fs.drop_first();
    let t2 = t1.drop_first();
    let t3 = t2.drop_first();
    assert(t1[0] == fs[1] && t1[1] == fs[2] && t1[2] == fs[3]);
    assert(t2[0] == fs[2] && t2[1] == fs[3]);
    assert(t3[0] == fs[3]);
    assert(field_lookup(fs, url_name()) == Some(fs[0].value));
    assert(field_lookup(fs, title_name()) == field_lookup(t1, title_name()));
    assert(field_lookup(t1, title_name()) == Some(fs[1].value));
    assert(field_lookup(fs, site_url_name()) == field_lookup(t1, site_url_name()));
    assert(field_lookup(t1, site_url_name()) == field_lookup(t2, site_url_name()));
    assert(field_lookup(t2, site_url_name()) == Some(fs[2].value));
    assert(field_lookup(fs, description_name()) == field_lookup(t1, description_name()));
    assert(field_lookup(t1, description_name()) == field_lookup(t2, description_name()));
    assert(field_lookup(t2, description_name()) == field_lookup(t3, description_name()));
    assert(field_lookup(t3, description_name()) == Some(fs[3].value));
}

/// Build the literal names of the payload fields.
fn url_key() -> (r: String)
    ensures
        r@ == url_name(),
{
    let r = String::from_str("url");
    proof {
        reveal_strlit("url");
        assert(r@ =~= url_name());
    }
    r
}

fn title_key() -> (r: String)
    ensures
        r@ == title_name(),
{
    let r = String::from_str("title");
    proof {
        reveal_strlit("title");
        assert(r@ =~= title_name());
    }
    r
}

fn site_url_key() -> (r: String)
    ensures
        r@ == site_url_name(),
{
    let r = String::from_str("site_url");
    proof {
        reveal_strlit("site_url");
        assert(r@ =~= site_url_name());
    }
    r
}

fn description_key() -> (r: String)
    ensures
        r@ == description_name(),
{
    let r = String::from_str("description");
    proof {
        reveal_strlit("description");
        assert(r@ =~= description_name());
    }
    r
}

fn date_key() -> (r: String)
    ensures
        r@ == date_name(),
{
    let r = String::from_str("date");
    proof {
        reveal_strlit("date");
        assert(r@ =~= date_name());
    }
    r
}

fn feed_key() -> (r: String)
    ensures
        r@ == feed_name(),
{
    let r = String::from_str("feed");
    proof {
        reveal_strlit("feed");
        assert(r@ =~= feed_name());
    }
    r
}

fn link_key() -> (r: String)
    ensures
        r@ == link_name(),
{
    let r = String::from_str("link");
    proof {
        reveal_strlit("link");
        assert(r@ =~= link_name());
    }
    r
}

fn raw_id_key() -> (r: String)
    ensures
        r@ == raw_id_name(),
{
    let r = String::from_str("raw_id");
    proof {
        reveal_strlit("raw_id");
        assert(r@ =~= raw_id_name());
    }
    r
}

/// The date field of a post: absent or `null` is no date, a string must
/// denote a persistable instant.
pub open spec fn opt_date(fields: Seq<JFieldM>) -> Option<Option<Timestamp>> {
    match field_lookup(fields, date_name()) {
        Some(JsonValM::Str(d)) => match rfc3339_val(d) {
            Some(t) => if t.wf() {
                Some(Some(t))
            } else {
                None
            },
            None => None,
        },
        Some(JsonValM::Null) => Some(None),
        Some(_) => None,
        None => Some(None),
    }
}

impl TableRow for FeedItem {
    open spec fn key_of(m: FeedItemV) -> Seq<char> {
        m.raw_id
    }

    open spec fn payload_wf(m: FeedItemV) -> bool {
        match m.date {
            Some(t) => t.wf(),
            None => true,
        }
    }

    open spec fn payload_round_ok(m: FeedItemV) -> bool {
        match m.date {
            Some(t) => ts_round(t),
            None => true,
        }
    }

    open spec fn fields_of(m: FeedItemV) -> Seq<JFieldM> {
        seq![
            JFieldM { name: title_name(), value: JsonValM::Str(m.title) },
            JFieldM {
                name: date_name(),
                value: match m.date {
                    Some(t) => JsonValM::Str(rfc3339_of(t.secs as int, t.nanos as int)),
                    None => JsonValM::Null,
                },
            },
            JFieldM { name: feed_name(), value: JsonValM::Str(m.feed) },
            JFieldM { name: link_name(), value: JsonValM::Str(m.link) },
            JFieldM { name: raw_id_name(), value: JsonValM::Str(m.raw_id) },
        ]
    }

    open spec fn of_fields(fields: Seq<JFieldM>) -> Option<FeedItemV> {
        match req_str(fields, title_name()) {
            Some(title) => match req_str(fields, feed_name()) {
                Some(feed) => match opt_str(fields, link_name()) {
                    Some(link) => match opt_str(fields, raw_id_name()) {
                        Some(raw_id) => match opt_date(fields) {
                            Some(date) => Some(
                                FeedItemV { title, date, feed, link, raw_id },
                            ),
                            None => None,
                        },
                        None => None,
                    },
                    None => None,
                },
                None => None,
            },
            None => None,
        }
    }

    open spec fn claimed_names() -> Set<Seq<char>> {
        set![title_name(), date_name(), feed_name(), link_name(), raw_id_name()]
    }

    open spec fn table_name_spec() -> Seq<char> {
        seq!['p', 'o', 's', 't', 's']
    }

    open spec fn shard_chars_spec() -> nat {
        1
    }

    open spec fn capacity_spec() -> nat {
        100_000_000
    }

    fn key(&self) -> (r: String) {
        self.raw_id.clone()
    }

    fn to_fields(&self) -> (r: Vec<JField>) {
        let mut out: Vec<JField> = Vec::new();
        out.push(JField { name: title_key(), value: JsonVal::Str(self.title.clone()) });
        let dv = match &self.date {
            Some(t) => JsonVal::Str(ts_format(t)),
            None => JsonVal::Null,
        };
        out.push(JField { name: date_key(), value: dv });
        out.push(JField { name: feed_key(), value: JsonVal::Str(self.feed.clone()) });
        out.push(JField { name: link_key(), value: JsonVal::Str(self.link.clone()) });
        out.push(JField { name: raw_id_key(), value: JsonVal::Str(self.raw_id.clone()) });
        proof {
            assert(fields_view(out@) =~= Self::fields_of(self.deep_view()));
        }
        out
    }

    fn from_fields(fields: &Vec<JField>) -> (r: Option<FeedItem>) {
        proof {
            reveal_strlit("title");
            reveal_strlit("feed");
            reveal_strlit("link");
            reveal_strlit("raw_id");
            reveal_strlit("date");
            assert("title"@ =~= title_name());
            assert("feed"@ =~= feed_name());
            assert("link"@ =~= link_name());
            assert("raw_id"@ =~= raw_id_name());
            assert("date"@ =~= date_name());
        }
        let title = match req_str_exec(fields, "title") {
            Some(t) => t,
            None => {
                return None;
            },
        };
        let feed = match req_str_exec(fields, "feed") {
            Some(t) => t,
            None => {
                return None;
            },
        };
        let link = match opt_str_exec(fields, "link") {
            Some(t) => t,
            None => {
                return None;
            },
        };
        let raw_id = match opt_str_exec(fields, "raw_id") {
            Some(t) => t,
            None => {
                return None;
            },
        };
        let date: Option<Timestamp> = match field_lookup_exec(fields, "date") {
            Some(v) => match v {
                JsonVal::Str(d) => {
                    match ts_parse(d.as_str()) {
                        Some(t) => {
                            if t.is_wf() {
                                Some(t)
                            } else {
                                return None;
                            }
                        },
                        None => {
                            return None;
                        },
                    }
                },
                JsonVal::Null => None,
                _ => {
                    return None;
                },
            },
            None => None,
        };
        Some(FeedItem { title, date, feed, link, raw_id })
    }

    fn same_payload(&self, other: &Self) -> (r: bool) {
        let dates_equal = match (&self.date, &other.date) {
            (Option::None, Option::None) => true,
            (Option::Some(a), Option::Some(b)) => a.secs == b.secs && a.nanos == b.nanos,
            _ => false,
        };
        let r = self.title == other.title && dates_equal && self.feed == other.feed
            && self.link == other.link && self.raw_id == other.raw_id;
        proof {
            if r {
                assert(self.deep_view() == other.deep_view());
            } else {
                if self.deep_view() == other.deep_view() {
                    assert(self.title@ == other.title@);
                    assert(self.date == other.date);
                    assert(self.feed@ == other.feed@);
                    assert(self.link@ == other.link@);
                    assert(self.raw_id@ == other.raw_id@);
                }
            }
        }
        r
    }

    fn dup(&self) -> (r: Self) {
        FeedItem {
            title: self.title.clone(),
            date: match &self.date {
                Some(t) => Some(*t),
                None => None,
            },
            feed: self.feed.clone(),
            link: self.link.clone(),
            raw_id: self.raw_id.clone(),
        }
    }

    fn table_name() -> (r: String) {
        let r = String::from_str("posts");
        proof {
            reveal_strlit("posts");
            assert(r@ =~= Self::table_name_spec());
        }
        r
    }

    fn shard_chars() -> (r: usize) {
        1
    }

    fn expected_capacity() -> (r: usize) {
        100_000_000
    }

    proof fn lemma_fields_wf(m: FeedItemV) {
        lemma_feed_item_names();
        let fs = Self::fields_of(m);
        assert forall|i: int| 0 <= i < fs.len() implies name_wf(#[trigger] fs[i].name)
            && crate::json::val_wf(fs[i].value) by {
            if i == 0 {
            } else if i == 1 {
            } else if i == 2 {
            } else if i == 3 {
            } else {
                assert(i == 4);
            }
        }
        assert forall|i: int| 0 <= i < fs.len() implies Self::claimed_names().contains(
            #[trigger] fs[i].name,
        ) by {
            if i == 0 {
            } else if i == 1 {
            } else if i == 2 {
            } else if i == 3 {
            } else {
                assert(i == 4);
            }
        }
    }

    proof fn lemma_of_fields_lookups(a: Seq<JFieldM>, b: Seq<JFieldM>) {
        assert(Self::claimed_names().contains(title_name()));
        assert(Self::claimed_names().contains(date_name()));
        assert(Self::claimed_names().contains(feed_name()));
        assert(Self::claimed_names().contains(link_name()));
        assert(Self::claimed_names().contains(raw_id_name()));
        assert(field_lookup(a, title_name()) == field_lookup(b, title_name()));
        assert(field_lookup(a, date_name()) == field_lookup(b, date_name()));
        assert(field_lookup(a, feed_name()) == field_lookup(b, feed_name()));
        assert(field_lookup(a, link_name()) == field_lookup(b, link_name()));
        assert(field_lookup(a, raw_id_name()) == field_lookup(b, raw_id_name()));
    }

    proof fn lemma_fields_roundtrip(m: FeedItemV) {
        lemma_feed_item_names();
        let fs = Self::fields_of(m);
        lemma_lookup_five(fs);
        match m.date {
            Some(t) => {
                assert(rfc3339_val(rfc3339_of(t.secs as int, t.nanos as int)) == Some(t));
            },
            None => {},
        }
    }

    proof fn lemma_of_fields_wf(fields: Seq<JFieldM>) {
    }
}

/// The field names of a post are pairwise distinct, distinct from the
/// row-level names, and plain.
proof fn lemma_feed_item_names()
    ensures
        title_name() != date_name(),
        title_name() != feed_name(),
        title_name() != link_name(),
        title_name() != raw_id_name(),
        date_name() != feed_name(),
        date_name() != link_name(),
        date_name() != raw_id_name(),
        feed_name() != link_name(),
        feed_name() != raw_id_name(),
        link_name() != raw_id_name(),
        !FeedItem::claimed_names().contains(id_name()),
        !FeedItem::claimed_names().contains(updated_name()),
        !FeedItem::claimed_names().contains(deleted_name()),
        name_wf(title_name()),
        name_wf(date_name()),
        name_wf(feed_name()),
        name_wf(link_name()),
        name_wf(raw_id_name()),
{
    assert(title_name().len() == 5 && date_name().len() == 4 && feed_name().len() == 4
        && link_name().len() == 4 && raw_id_name().len() == 6);
    assert(date_name()[0] == 'd' && feed_name()[0] == 'f' && link_name()[0] == 'l');
    if date_name() == feed_name() {
        assert(date_name()[0] == feed_name()[0]);
    }
    if date_name() == link_name() {
        assert(date_name()[0] == link_name()[0]);
    }
    if feed_name() == link_name() {
        assert(feed_name()[0] == link_name()[0]);
    }
    assert(id_name().len() == 2 && updated_name().len() == 10 && deleted_name().len() == 10);
    assert forall|i: int| 0 <= i < title_name().len() implies crate::json::plain_char(
        #[trigger] title_name()[i],
    ) by {
        assert(('t' as nat) >= 32 && ('i' as nat) >= 32 && ('l' as nat) >= 32 && ('e' as nat)
            >= 32);
    }
    assert forall|i: int| 0 <= i < date_name().len() implies crate::json::plain_char(
        #[trigger] date_name()[i],
    ) by {
        assert(('d' as nat) >= 32 && ('a' as nat) >= 32 && ('t' as nat) >= 32 && ('e' as nat)
            >= 32);
    }
    assert forall|i: int| 0 <= i < feed_name().len() implies crate::json::plain_char(
        #[trigger] feed_name()[i],
    ) by {
        assert(('f' as nat) >= 32 && ('e' as nat) >= 32 && ('d' as nat) >= 32);
    }
    assert forall|i: int| 0 <= i < link_name().len() implies crate::json::plain_char(
        #[trigger] link_name()[i],
    ) by {
        assert(('l' as nat) >= 32 && ('i' as nat) >= 32 && ('n' as nat) >= 32 && ('k' as nat)
            >= 32);
    }
    assert forall|i: int| 0 <= i < raw_id_name().len() implies crate::json::plain_char(
        #[trigger] raw_id_name()[i],
    ) by {
        assert(('r' as nat) >= 32 && ('a' as nat) >= 32 && ('w' as nat) >= 32 && ('_' as nat)
            >= 32 && ('i' as nat) >= 32 && ('d' as nat) >= 32);
    }
}

/// Unfold the lookups of a post's five fields.
proof fn lemma_lookup_five(fs: Seq<JFieldM>)
    requires
        fs.len() == 5,
        fs[0].name == title_name(),
        fs[1].name == date_name(),
        fs[2].name == feed_name(),
        fs[3].name == link_name(),
        fs[4].name == raw_id_name(),
        title_name() != date_name(),
        title_name() != feed_name(),
        title_name() != link_name(),
        title_name() != raw_id_name(),
        date_name() != feed_name(),
        date_name() != link_name(),
        date_name() != raw_id_name(),
        feed_name() != link_name(),
        feed_name() != raw_id_name(),
        link_name() != raw_id_name(),
    ensures
        field_lookup(fs, title_name()) == Some(fs[0].value),
        field_lookup(fs, date_name()) == Some(fs[1].value),
        field_lookup(fs, feed_name()) == Some(fs[2].value),
        field_lookup(fs, link_name()) == Some(fs[3].value),
        field_lookup(fs, raw_id_name()) == Some(fs[4].value),
{
    let t1 = fs.drop_first();
    let t2 = t1.drop_first();
    let t3 = t2.drop_first();
    let t4 = t3.drop_first();
    assert(t1[0] == fs[1] && t1[1] == fs[2] && t1[2] == fs[3] && t1[3] == fs[4]);
    assert(t2[0] == fs[2] && t2[1] == fs[3] && t2[2] == fs[4]);
    assert(t3[0] == fs[3] && t3[1] == fs[4]);
    assert(t4[0] == fs[4]);
    assert(field_lookup(fs, title_name()) == Some(fs[0].value));
    assert(field_lookup(fs, date_name()) == field_lookup(t1, date_name()));
    assert(field_lookup(t1, date_name()) == Some(fs[1].value));
    assert(field_lookup(fs, feed_name()) == field_lookup(t1, feed_name()));
    assert(field_lookup(t1, feed_name()) == field_lookup(t2, feed_name()));
    assert(field_lookup(t2, feed_name()) == Some(fs[2].value));
    assert(field_lookup(fs, link_name()) == field_lookup(t1, link_name()));
    assert(field_lookup(t1, link_name()) == field_lookup(t2, link_name()));
    assert(field_lookup(t2, link_name()) == field_lookup(t3, link_name()));
    assert(field_lookup(t3, link_name()) == Some(fs[3].value));
    assert(field_lookup(fs, raw_id_name()) == field_lookup(t1, raw_id_name()));
    assert(field_lookup(t1, raw_id_name()) == field_lookup(t2, raw_id_name()));
    assert(field_lookup(t2, raw_id_name()) == field_lookup(t3, raw_id_name()));
    assert(field_lookup(t3, raw_id_name()) == field_lookup(t4, raw_id_name()));
    assert(field_lookup(t4, raw_id_name()) == Some(fs[4].value));
}

} // verus!
