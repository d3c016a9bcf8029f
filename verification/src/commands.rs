//! The pure decisions of the command layer: argument parsing, clone URL
//! expansion, shorthand resolution, and the store mutations the commands
//! perform. Rendering and all I/O stay with the caller.

use vstd::prelude::*;
use crate::error::StoreError;
use crate::feed::FeedItem;
use crate::feed::FeedItemV;
use crate::feed::FeedSource;
use crate::feed::FeedSourceV;
use crate::ident::hash_id_spec;
use crate::row::RowM;
use crate::row::TableRow;
use crate::table::Table;
use crate::table::live_at;
use crate::table::live_payloads;
use crate::text::lex_lt;
use crate::ts::Timestamp;

verus! {

/// One axis the listing can be grouped by.
#[derive(Clone, Copy, Debug, PartialEq, Eq, Structural)]
pub enum GroupKey {
    Date,
    Feed,
}

/// The grouping a listing argument denotes: `d` for dates, `f` for feeds,
/// in order; any other character refuses the whole argument.
pub open spec fn parse_grouping_spec(s: Seq<char>) -> Option<Seq<GroupKey>>
    decreases s.len(),
{
    if s.len() == 0 {
        Some(Seq::empty())
    } else {
        let k: Option<GroupKey> = if s.last() == 'd' {
            Some(GroupKey::Date)
        } else if s.last() == 'f' {
            Some(GroupKey::Feed)
        } else {
            None
        };
        match (parse_grouping_spec(s.drop_last()), k) {
            (Some(rest), Some(key)) => Some(rest.push(key)),
            _ => None,
        }
    }
}

/// Parse a grouping argument.
pub fn parse_grouping(arg: &str) -> (r: Option<Vec<GroupKey>>)
    ensures
        match r {
            Some(keys) => parse_grouping_spec(arg@) == Some(keys@),
            None => parse_grouping_spec(arg@) is None,
        },
{
    let n = arg.unicode_len();
    let mut keys: Vec<GroupKey> = Vec::new();
    let mut i: usize = 0;
    proof {
        assert(arg@.take(0) =~= Seq::<char>::empty());
        assert(parse_grouping_spec(arg@.take(0)) == Some(keys@));
    }
    while i < n
        invariant
            i <= n,
            n == arg@.len(),
            parse_grouping_spec(arg@.take(i as int)) == Some(keys@),
        decreases n - i,
    {
        let c = arg.get_char(i);
        let k = if c == 'd' {
            GroupKey::Date
        } else if c == 'f' {
            GroupKey::Feed
        } else {
            proof {
                assert(arg@.take(n as int) =~= arg@);
                lemma_parse_grouping_extends(arg@, i as int);
            }
            return None;
        };
        let ghost before = keys@;
        keys.push(k);
        proof {
            assert(arg@.take(i + 1).drop_last() =~= arg@.take(i as int));
            assert(arg@.take(i + 1).last() == arg@[i as int]);
            assert(keys@ =~= before.push(k));
        }
        i = i + 1;
    }
    proof {
        assert(arg@.take(n as int) =~= arg@);
    }
    Some(keys)
}

/// A bad character anywhere refuses the whole grouping argument.
proof fn lemma_parse_grouping_extends(s: Seq<char>, i: int)
    requires
        0 <= i < s.len(),
        s[i] != 'd',
        s[i] != 'f',
    ensures
        parse_grouping_spec(s) is None,
    decreases s.len(),
{
    if s.len() > 0 {
        if i == s.len() - 1 {
            assert(s.last() == s[i]);
        } else {
            assert(s.drop_last()[i] == s[i]);
            lemma_parse_grouping_extends(s.drop_last(), i);
        }
    }
}

/// The grouping and filter a listing's positional arguments denote:
/// `@`-prefixed arguments set the shorthand filter (last wins), at most
/// one other argument names the grouping.
pub open spec fn parse_show_args_from(
    args: Seq<Seq<char>>,
    group: Seq<char>,
    filter: Option<Seq<char>>,
) -> Option<(Seq<char>, Option<Seq<char>>)>
    decreases args.len(),
{
    if args.len() == 0 {
        Some((group, filter))
    } else {
        let a = args[0];
        if a.len() > 0 && a[0] == '@' {
            parse_show_args_from(args.drop_first(), group, Some(a))
        } else if group.len() == 0 {
            parse_show_args_from(args.drop_first(), a, filter)
        } else {
            None
        }
    }
}

/// Parse a listing's positional arguments; two grouping arguments refuse
/// the call.
pub fn parse_show_args(args: &Vec<String>) -> (r: Option<(String, Option<String>)>)
    ensures
        match r {
            Some(p) => parse_show_args_from(args.deep_view(), Seq::empty(), None) == Some(
                (p.0@, match p.1 {
                    Some(f) => Some(f@),
                    None => None,
                }),
            ),
            None => parse_show_args_from(args.deep_view(), Seq::empty(), None) is None,
        },
{
    let mut group = String::new();
    let mut filter: Option<String> = None;
    let mut i: usize = 0;
    let ghost all = args.deep_view();
    proof {
        assert(all.skip(0) =~= all);
        assert(group@ =~= Seq::<char>::empty());
    }
    while i < args.len()
        invariant
            i <= args.len(),
            all == args.deep_view(),
            all.len() == args.len(),
            parse_show_args_from(all, Seq::empty(), None) == parse_show_args_from(
                all.skip(i as int),
                group@,
                match filter {
                    Some(f) => Some(f@),
                    None => None,
                },
            ),
        decreases args.len() - i,
    {
        let a = &args[i];
        proof {
            assert(all.skip(i as int)[0] == all[i as int]);
            assert(all[i as int] == args@[i as int]@);
            assert(all.skip(i as int).drop_first() =~= all.skip(i + 1));
        }
        let alen = a.as_str().unicode_len();
        if alen > 0 && a.as_str().get_char(0) == '@' {
            filter = Some(a.clone());
        } else if group.as_str().unicode_len() == 0 {
            proof {
                assert(group@.len() == 0);
            }
            group = a.clone();
        } else {
            proof {
                assert(group@.len() > 0);
                assert(parse_show_args_from(all, Seq::empty(), None) is None);
            }
            return None;
        }
        i = i + 1;
    }
    proof {
        assert(all.skip(all.len() as int) =~= Seq::<Seq<char>>::empty());
    }
    Some((group, filter))
}

/// The position of the first slash, or the length.
pub open spec fn first_slash(s: Seq<char>, i: int) -> int
    decreases s.len() - i,
    when 0 <= i <= s.len()
{
    if i < s.len() {
        if s[i] == '/' {
            i
        } else {
            first_slash(s, i + 1)
        }
    } else {
        i
    }
}

/// Whether the string holds a colon anywhere.
pub open spec fn has_colon(s: Seq<char>) -> bool {
    exists|i: int| 0 <= i < s.len() && s[i] == ':'
}

/// The host prefix a bare `user/repo` expands with.
pub open spec fn gh_lead() -> Seq<char> {
    seq!['g', 'i', 't', '@', 'g', 'i', 't', 'h', 'u', 'b', '.', 'c', 'o', 'm', ':']
}

/// The suffix a bare `user/repo` expands with.
pub open spec fn git_tail() -> Seq<char> {
    seq!['.', 'g', 'i', 't']
}

/// Clone-URL expansion: full URLs (anything with a colon) and relative
/// paths pass through; a bare `user/repo` with exactly one slash expands
/// to the git host form; anything else passes through.
pub open spec fn expand_url_spec(s: Seq<char>) -> Seq<char> {
    if has_colon(s) || (s.len() > 0 && s[0] == '.') {
        s
    } else {
        let fs = first_slash(s, 0);
        if fs < s.len() && first_slash(s, fs + 1) == s.len() {
            gh_lead() + s + git_tail()
        } else {
            s
        }
    }
}

proof fn lemma_first_slash_bounds(s: Seq<char>, i: int)
    requires
        0 <= i <= s.len(),
    ensures
        i <= first_slash(s, i) <= s.len(),
        forall|k: int| i <= k < first_slash(s, i) ==> s[k] != '/',
        first_slash(s, i) < s.len() ==> s[first_slash(s, i)] == '/',
    decreases s.len() - i,
{
    if i < s.len() && s[i] != '/' {
        lemma_first_slash_bounds(s, i + 1);
    }
}

proof fn lemma_first_slash_run(s: Seq<char>, i: int, n: int)
    requires
        0 <= i <= n <= s.len(),
        forall|k: int| i <= k < n ==> s[k] != '/',
        n == s.len() || s[n] == '/',
    ensures
        first_slash(s, i) == n,
    decreases n - i,
{
    if i < n {
        lemma_first_slash_run(s, i + 1, n);
    }
}

/// Expand a clone target before handing it to the version-control tool.
pub fn expand_url(url: &str) -> (r: String)
    ensures
        r@ == expand_url_spec(url@),
{
    let n = url.unicode_len();
    // A colon marks a full URL; a leading dot a relative path.
    let mut i: usize = 0;
    let mut colon = false;
    while i < n
        invariant
            i <= n,
            n == url@.len(),
            colon == exists|k: int| 0 <= k < i && url@[k] == ':',
        decreases n - i,
    {
        if url.get_char(i) == ':' {
            colon = true;
        }
        i = i + 1;
    }
    proof {
        assert(colon == has_colon(url@));
    }
    if colon || (n > 0 && url.get_char(0) == '.') {
        return url.to_owned();
    }
    // Find the first slash and check there is exactly one.
    let mut j: usize = 0;
    while j < n && url.get_char(j) != '/'
        invariant
            j <= n,
            n == url@.len(),
            forall|k: int| 0 <= k < j ==> url@[k] != '/',
        decreases n - j,
    {
        j = j + 1;
    }
    proof {
        lemma_first_slash_run(url@, 0, j as int);
    }
    if j >= n {
        proof {
            assert(first_slash(url@, 0) == n);
        }
        return url.to_owned();
    }
    let mut k: usize = j + 1;
    while k < n && url.get_char(k) != '/'
        invariant
            j < k <= n,
            n == url@.len(),
            forall|q: int| j < q < k ==> url@[q] != '/',
        decreases n - k,
    {
        k = k + 1;
    }
    proof {
        lemma_first_slash_run(url@, j + 1, k as int);
    }
    if k < n {
        return url.to_owned();
    }
    let mut out = String::new();
    crate::text::push_str(&mut out, "git@github.com:");
    crate::text::push_str(&mut out, url);
    crate::text::push_str(&mut out, ".git");
    proof {
        reveal_strlit("git@github.com:");
        reveal_strlit(".git");
        assert(out@ =~= gh_lead() + url@ + git_tail());
    }
    out
}

/// Whether `x` sorts strictly before `y` in the feed listing: ascending
/// by URL.
pub open spec fn feed_before(x: FeedSourceV, y: FeedSourceV) -> bool {
    lex_lt(x.url, y.url)
}

/// Where a feed lands in an already sorted run: after every feed it does
/// not sort strictly before, which keeps the sort stable.
pub open spec fn feed_pos(s: Seq<FeedSourceV>, x: FeedSourceV) -> int
    decreases s.len(),
{
    if s.len() == 0 {
        0
    } else if feed_before(x, s[0]) {
        0
    } else {
        1 + feed_pos(s.drop_first(), x)
    }
}

/// The feed listing order: each feed inserted into the sorted run of the
/// feeds before it.
pub open spec fn sort_feeds_spec(items: Seq<FeedSourceV>) -> Seq<FeedSourceV>
    decreases items.len(),
{
    if items.len() == 0 {
        Seq::empty()
    } else {
        let prev = sort_feeds_spec(items.drop_last());
        prev.insert(feed_pos(prev, items.last()), items.last())
    }
}

proof fn lemma_feed_pos_bounds(s: Seq<FeedSourceV>, x: FeedSourceV)
    ensures
        0 <= feed_pos(s, x) <= s.len(),
    decreases s.len(),
{
    if s.len() > 0 && !feed_before(x, s[0]) {
        lemma_feed_pos_bounds(s.drop_first(), x);
    }
}

proof fn lemma_feed_pos_run(s: Seq<FeedSourceV>, x: FeedSourceV, p: int)
    requires
        0 <= p <= s.len(),
        forall|k: int| 0 <= k < p ==> !feed_before(x, #[trigger] s[k]),
        p == s.len() || feed_before(x, s[p]),
    ensures
        feed_pos(s, x) == p,
    decreases p,
{
    if p > 0 {
        assert(!feed_before(x, s[0]));
        let df = s.drop_first();
        assert(forall|k: int| 0 <= k < p - 1 ==> df[k] == #[trigger] s[k + 1]);
        if p - 1 < df.len() {
            assert(df[p - 1] == s[p]);
        }
        lemma_feed_pos_run(df, x, p - 1);
    } else {
        if s.len() > 0 {
            assert(feed_before(x, s[0]));
        }
    }
}

/// Decide the feed listing order of two feeds.
fn feed_before_exec(x: &FeedSource, y: &FeedSource) -> (r: bool)
    ensures
        r == feed_before(x.deep_view(), y.deep_view()),
{
    crate::text::str_lt(x.url.as_str(), y.url.as_str())
}

/// The live feeds of a table, in listing order.
pub fn sorted_feeds(table: &Table<FeedSource>) -> (r: Vec<FeedSource>)
    requires
        table.wf(),
    ensures
        r.deep_view() == sort_feeds_spec(live_payloads::<FeedSource>(table.rows_model())),
{
    let items = table.items();
    let ghost iv = items.deep_view();
    let mut out: Vec<FeedSource> = Vec::new();
    let mut i: usize = 0;
    proof {
        assert(iv.take(0) =~= Seq::<FeedSourceV>::empty());
        assert(out.deep_view() =~= sort_feeds_spec(iv.take(0)));
    }
    while i < items.len()
        invariant
            i <= items.len(),
            iv == items.deep_view(),
            iv.len() == items.len(),
            out.deep_view() == sort_feeds_spec(iv.take(i as int)),
            out@.len() == out.deep_view().len(),
        decreases items.len() - i,
    {
        let x = items[i].dup();
        let ghost xv = x.deep_view();
        proof {
            assert(iv[i as int] == items@[i as int].deep_view());
        }
        // Find the stable insertion position.
        let mut p: usize = 0;
        while p < out.len() && !feed_before_exec(&x, &out[p])
            invariant
                p <= out.len(),
                xv == x.deep_view(),
                forall|k: int|
                    0 <= k < p ==> !feed_before(xv, #[trigger] out.deep_view()[k]),
            decreases out.len() - p,
        {
            proof {
                assert(out.deep_view()[p as int] == out@[p as int].deep_view());
            }
            p = p + 1;
        }
        proof {
            if (p as int) < out.deep_view().len() {
                assert(out.deep_view()[p as int] == out@[p as int].deep_view());
            }
            lemma_feed_pos_run(out.deep_view(), xv, p as int);
        }
        let ghost before = out.deep_view();
        out.insert(p, x);
        proof {
            assert(out.deep_view() =~= before.insert(p as int, xv));
            assert(iv.take(i + 1).drop_last() =~= iv.take(i as int));
            assert(iv.take(i + 1).last() == iv[i as int]);
        }
        i = i + 1;
    }
    proof {
        assert(iv.take(iv.len() as int) =~= iv);
    }
    out
}

/// The first listing position whose shorthand is `sh`, and the URL there.
pub open spec fn match_shorthand(
    feeds: Seq<FeedSourceV>,
    shs: Seq<Seq<char>>,
    sh: Seq<char>,
) -> Option<Seq<char>>
    decreases shs.len(),
{
    if shs.len() == 0 || feeds.len() == 0 {
        None
    } else if shs[0] == sh {
        Some(feeds[0].url)
    } else {
        match_shorthand(feeds.drop_first(), shs.drop_first(), sh)
    }
}

/// What a feed shorthand resolves to in a table: feeds in listing order,
/// their identifiers' shorthands, the first match's URL.
pub open spec fn resolve_shorthand_spec(
    rows: Seq<RowM<FeedSourceV>>,
    id_len: nat,
    sh: Seq<char>,
) -> Option<Seq<char>> {
    let feeds = sort_feeds_spec(live_payloads::<FeedSource>(rows));
    let ids = feeds.map_values(|f: FeedSourceV| hash_id_spec(f.url, id_len));
    let shs = crate::shorthand::compute_shorthands_spec(ids);
    match_shorthand(feeds, shs, sh)
}

/// Resolve a feed shorthand to the feed's URL.
pub fn resolve_shorthand(feeds_table: &Table<FeedSource>, shorthand: &str) -> (r: Option<
    String,
>)
    requires
        feeds_table.wf(),
    ensures
        match r {
            Some(u) => resolve_shorthand_spec(
                feeds_table.rows_model(),
                feeds_table.id_length_spec(),
                shorthand@,
            ) == Some(u@),
            None => resolve_shorthand_spec(
                feeds_table.rows_model(),
                feeds_table.id_length_spec(),
                shorthand@,
            ) is None,
        },
{
    let feeds = sorted_feeds(feeds_table);
    let ghost fv = feeds.deep_view();
    let mut ids: Vec<String> = Vec::new();
    let mut i: usize = 0;
    let ghost idsv = fv.map_values(
        |f: FeedSourceV| hash_id_spec(f.url, feeds_table.id_length_spec()),
    );
    proof {
        assert(ids.deep_view() =~= idsv.take(0));
    }
    while i < feeds.len()
        invariant
            i <= feeds.len(),
            feeds_table.wf(),
            fv == feeds.deep_view(),
            fv.len() == feeds.len(),
            idsv == fv.map_values(
                |f: FeedSourceV| hash_id_spec(f.url, feeds_table.id_length_spec()),
            ),
            ids.deep_view() == idsv.take(i as int),
        decreases feeds.len() - i,
    {
        let id = feeds_table.id_of(&feeds[i]);
        let ghost before = ids.deep_view();
        ids.push(id);
        proof {
            assert(fv[i as int] == feeds@[i as int].deep_view());
            assert(idsv[i as int] == hash_id_spec(fv[i as int].url,
                feeds_table.id_length_spec()));
            assert(idsv.take(i + 1) =~= idsv.take(i as int).push(idsv[i as int]));
            assert(ids.deep_view() =~= before.push(id@));
        }
        i = i + 1;
    }
    proof {
        assert(idsv.take(idsv.len() as int) =~= idsv);
    }
    let shs = crate::shorthand::compute_shorthands(&ids);
    let ghost shsv = shs.deep_view();
    let mut j: usize = 0;
    proof {
        assert(fv.skip(0) =~= fv);
        assert(shsv.skip(0) =~= shsv);
    }
    while j < shs.len() && j < feeds.len()
        invariant
            j <= shs.len(),
            j <= feeds.len(),
            fv == feeds.deep_view(),
            fv.len() == feeds.len(),
            shsv == shs.deep_view(),
            shsv.len() == shs.len(),
            fv == sort_feeds_spec(live_payloads::<FeedSource>(feeds_table.rows_model())),
            shsv == crate::shorthand::compute_shorthands_spec(
                fv.map_values(
                    |f: FeedSourceV| hash_id_spec(f.url, feeds_table.id_length_spec()),
                ),
            ),
            match_shorthand(fv, shsv, shorthand@) == match_shorthand(
                fv.skip(j as int),
                shsv.skip(j as int),
                shorthand@,
            ),
        decreases shs.len() - j,
    {
        proof {
            assert(fv.skip(j as int)[0] == fv[j as int]);
            assert(shsv.skip(j as int)[0] == shsv[j as int]);
            assert(fv[j as int] == feeds@[j as int].deep_view());
            assert(shsv[j as int] == shs@[j as int]@);
            assert(fv.skip(j as int).drop_first() =~= fv.skip(j + 1));
            assert(shsv.skip(j as int).drop_first() =~= shsv.skip(j + 1));
        }
        if crate::text::str_eq(shs[j].as_str(), shorthand) {
            proof {
                assert(match_shorthand(fv.skip(j as int), shsv.skip(j as int), shorthand@)
                    == Some(fv[j as int].url));
            }
            return Some(feeds[j].url.clone());
        }
        j = j + 1;
    }
    proof {
        if j >= shs.len() {
            assert(shsv.skip(j as int).len() == 0);
        } else {
            assert(fv.skip(j as int).len() == 0);
        }
    }
    None
}

/// Subscribe to a feed: upsert a bare subscription for the URL.
pub fn cmd_add(feeds: &mut Table<FeedSource>, url: &str)
    requires
        old(feeds).wf(),
    ensures
        final(feeds).wf(),
        final(feeds).id_length_spec() == old(feeds).id_length_spec(),
        final(feeds).shard_chars_spec() == old(feeds).shard_chars_spec(),
        ({
            let p = FeedSourceV {
                url: url@,
                title: Seq::empty(),
                site_url: Seq::empty(),
                description: Seq::empty(),
            };
            let id = hash_id_spec(url@, old(feeds).id_length_spec());
            if crate::table::live_with(old(feeds).model(), id, p) {
                final(feeds).model() == old(feeds).model()
            } else {
                exists|t: Timestamp|
                    t.wf() && final(feeds).model() == old(feeds).model().insert(
                        id,
                        RowM::Live { id: id, payload: p, updated_at: Some(t) },
                    )
            }
        }),
{
    let item = FeedSource {
        url: url.to_owned(),
        title: String::new(),
        site_url: String::new(),
        description: String::new(),
    };
    proof {
        assert(item.deep_view() == FeedSourceV {
            url: url@,
            title: Seq::empty(),
            site_url: Seq::empty(),
            description: Seq::empty(),
        });
    }
    feeds.upsert(item);
}

/// The natural keys of the posts of one feed, in listing order of the
/// snapshot they were read from.
pub open spec fn cascade_keys(ps: Seq<FeedItemV>, fid: Seq<char>) -> Seq<Seq<char>>
    decreases ps.len(),
{
    if ps.len() == 0 {
        Seq::empty()
    } else {
        cascade_keys(ps.drop_last(), fid) + if ps.last().feed == fid {
            seq![ps.last().raw_id]
        } else {
            Seq::empty()
        }
    }
}

/// One deletion by natural key: a live row at the key's identifier
/// becomes a tombstone, anything else is left alone.
pub open spec fn delete_one(
    m: Map<Seq<char>, RowM<FeedItemV>>,
    key: Seq<char>,
    id_len: nat,
    t: Timestamp,
) -> Map<Seq<char>, RowM<FeedItemV>> {
    let id = hash_id_spec(key, id_len);
    if live_at(m, id) {
        m.insert(id, RowM::Tombstone { id: id, deleted_at: t })
    } else {
        m
    }
}

/// Deletions by a list of natural keys, in order.
pub open spec fn cascade(
    m: Map<Seq<char>, RowM<FeedItemV>>,
    keys: Seq<Seq<char>>,
    id_len: nat,
    t: Timestamp,
) -> Map<Seq<char>, RowM<FeedItemV>>
    decreases keys.len(),
{
    if keys.len() == 0 {
        m
    } else {
        cascade(delete_one(m, keys[0], id_len, t), keys.drop_first(), id_len, t)
    }
}

/// Unsubscribe from a feed, by URL or `@`-shorthand: the feed becomes a
/// tombstone and every post of that feed is deleted with it. An unknown
/// shorthand or URL reports not-found and changes nothing.
pub fn cmd_remove(
    feeds: &mut Table<FeedSource>,
    posts: &mut Table<FeedItem>,
    url: &str,
) -> (r: Result<(), StoreError>)
    requires
        old(feeds).wf(),
        old(posts).wf(),
    ensures
        final(feeds).wf(),
        final(posts).wf(),
        final(feeds).id_length_spec() == old(feeds).id_length_spec(),
        final(posts).id_length_spec() == old(posts).id_length_spec(),
        final(feeds).shard_chars_spec() == old(feeds).shard_chars_spec(),
        final(posts).shard_chars_spec() == old(posts).shard_chars_spec(),
        ({
            let resolved: Option<Seq<char>> = if url@.len() > 0 && url@[0] == '@' {
                resolve_shorthand_spec(
                    old(feeds).rows_model(),
                    old(feeds).id_length_spec(),
                    url@.skip(1),
                )
            } else {
                Some(url@)
            };
            match resolved {
                Option::None => r matches Err(StoreError::NotFound) && final(feeds).model()
                    == old(feeds).model() && final(posts).model() == old(posts).model(),
                Option::Some(u) => {
                    let fid = hash_id_spec(u, old(feeds).id_length_spec());
                    if live_at(old(feeds).model(), fid) {
                        r is Ok && (exists|t: Timestamp|
                            t.wf() && final(feeds).model() == old(feeds).model().insert(
                                fid,
                                RowM::Tombstone { id: fid, deleted_at: t },
                            )) && (exists|t2: Timestamp|
                            t2.wf() && final(posts).model() == cascade(
                                old(posts).model(),
                                cascade_keys(
                                    live_payloads::<FeedItem>(old(posts).rows_model()),
                                    fid,
                                ),
                                old(posts).id_length_spec(),
                                t2,
                            ))
                    } else {
                        r matches Err(StoreError::NotFound) && final(feeds).model() == old(
                            feeds,
                        ).model() && final(posts).model() == old(posts).model()
                    }
                },
            }
        }),
{
    let n = url.unicode_len();
    let resolved: String = if n > 0 && url.get_char(0) == '@' {
        let sh = url.substring_char(1, n);
        proof {
            assert(sh@ =~= url@.skip(1));
        }
        match resolve_shorthand(feeds, sh) {
            Some(u) => u,
            None => {
                return Err(StoreError::NotFound);
            },
        }
    } else {
        url.to_owned()
    };
    let ghost fid = hash_id_spec(resolved@, feeds.id_length_spec());
    let feed_id = match feeds.delete(resolved.as_str()) {
        Some(id) => id,
        None => {
            return Err(StoreError::NotFound);
        },
    };
    let items = posts.items();
    let ghost iv = items.deep_view();
    let mut keys: Vec<String> = Vec::new();
    let mut i: usize = 0;
    let ghost ck = cascade_keys(live_payloads::<FeedItem>(old(posts).rows_model()), fid);
    proof {
        assert(keys.deep_view() =~= cascade_keys(iv.take(0), fid));
    }
    while i < items.len()
        invariant
            i <= items.len(),
            iv == items.deep_view(),
            iv.len() == items.len(),
            feed_id@ == fid,
            keys.deep_view() == cascade_keys(iv.take(i as int), fid),
        decreases items.len() - i,
    {
        proof {
            assert(iv[i as int] == items@[i as int].deep_view());
        }
        let ghost before = keys.deep_view();
        if crate::text::str_eq(items[i].feed.as_str(), feed_id.as_str()) {
            let key = items[i].key();
            keys.push(key);
            proof {
                assert(keys.deep_view() =~= before.push(iv[i as int].raw_id));
            }
        }
        proof {
            assert(iv.take(i + 1).drop_last() =~= iv.take(i as int));
            assert(iv.take(i + 1).last() == iv[i as int]);
            assert(keys.deep_view() =~= cascade_keys(iv.take(i + 1), fid));
        }
        i = i + 1;
    }
    proof {
        assert(iv.take(iv.len() as int) =~= iv);
        assert(keys.deep_view() == ck);
    }
    let now = crate::ts::now_clamped();
    let ghost kv = keys.deep_view();
    let ghost p0 = posts.model();
    let mut k: usize = 0;
    proof {
        assert(kv.skip(0) =~= kv);
    }
    while k < keys.len()
        invariant
            k <= keys.len(),
            kv == keys.deep_view(),
            kv.len() == keys.len(),
            posts.wf(),
            posts.id_length_spec() == old(posts).id_length_spec(),
            posts.shard_chars_spec() == old(posts).shard_chars_spec(),
            now.wf(),
            cascade(p0, kv, old(posts).id_length_spec(), now) == cascade(
                posts.model(),
                kv.skip(k as int),
                old(posts).id_length_spec(),
                now,
            ),
        decreases keys.len() - k,
    {
        proof {
            assert(kv.skip(k as int)[0] == kv[k as int]);
            assert(kv[k as int] == keys@[k as int]@);
            assert(kv.skip(k as int).drop_first() =~= kv.skip(k + 1));
        }
        let ghost pre = posts.model();
        let _ = posts.delete_at(keys[k].as_str(), now);
        proof {
            assert(posts.model() == delete_one(pre, kv[k as int],
                old(posts).id_length_spec(), now));
        }
        k = k + 1;
    }
    proof {
        assert(kv.skip(kv.len() as int) =~= Seq::<Seq<char>>::empty());
        assert(posts.model() == cascade(p0, kv, old(posts).id_length_spec(), now));
    }
    Ok(())
}

/// Whether `x` sorts strictly before `y` in the post listing: newest date
/// first, undated posts last, ties by raw identifier.
pub open spec fn post_before(x: FeedItemV, y: FeedItemV) -> bool {
    if x.date == y.date {
        lex_lt(x.raw_id, y.raw_id)
    } else {
        date_gt(x.date, y.date)
    }
}

/// `a` is a strictly later date than `b`; a missing date is earliest.
pub open spec fn date_gt(a: Option<Timestamp>, b: Option<Timestamp>) -> bool {
    match (a, b) {
        (Option::Some(x), Option::Some(y)) => y.le_spec(&x) && x != y,
        (Option::Some(x), Option::None) => true,
        _ => false,
    }
}

/// Where a post lands in an already sorted run.
pub open spec fn post_pos(s: Seq<FeedItemV>, x: FeedItemV) -> int
    decreases s.len(),
{
    if s.len() == 0 {
        0
    } else if post_before(x, s[0]) {
        0
    } else {
        1 + post_pos(s.drop_first(), x)
    }
}

/// The post listing order.
pub open spec fn sort_posts_spec(items: Seq<FeedItemV>) -> Seq<FeedItemV>
    decreases items.len(),
{
    if items.len() == 0 {
        Seq::empty()
    } else {
        let prev = sort_posts_spec(items.drop_last());
        prev.insert(post_pos(prev, items.last()), items.last())
    }
}

proof fn lemma_post_pos_run(s: Seq<FeedItemV>, x: FeedItemV, p: int)
    requires
        0 <= p <= s.len(),
        forall|k: int| 0 <= k < p ==> !post_before(x, #[trigger] s[k]),
        p == s.len() || post_before(x, s[p]),
    ensures
        post_pos(s, x) == p,
    decreases p,
{
    if p > 0 {
        assert(!post_before(x, s[0]));
        let df = s.drop_first();
        assert(forall|k: int| 0 <= k < p - 1 ==> df[k] == #[trigger] s[k + 1]);
        if p - 1 < df.len() {
            assert(df[p - 1] == s[p]);
        }
        lemma_post_pos_run(df, x, p - 1);
    } else {
        if s.len() > 0 {
            assert(post_before(x, s[0]));
        }
    }
}

/// Decide the post listing order of two posts.
fn post_before_exec(x: &FeedItem, y: &FeedItem) -> (r: bool)
    ensures
        r == post_before(x.deep_view(), y.deep_view()),
{
    let dates_equal = match (&x.date, &y.date) {
        (Option::None, Option::None) => true,
        (Option::Some(a), Option::Some(b)) => a.secs == b.secs && a.nanos == b.nanos,
        _ => false,
    };
    if dates_equal {
        crate::text::str_lt(x.raw_id.as_str(), y.raw_id.as_str())
    } else {
        match (&x.date, &y.date) {
            (Option::Some(a), Option::Some(b)) => b.le(a),
            (Option::Some(_), Option::None) => true,
            _ => false,
        }
    }
}

/// The live posts of a table, in listing order.
pub fn sorted_posts(table: &Table<FeedItem>) -> (r: Vec<FeedItem>)
    requires
        table.wf(),
    ensures
        r.deep_view() == sort_posts_spec(live_payloads::<FeedItem>(table.rows_model())),
{
    let items = table.items();
    let ghost iv = items.deep_view();
    let mut out: Vec<FeedItem> = Vec::new();
    let mut i: usize = 0;
    proof {
        assert(iv.take(0) =~= Seq::<FeedItemV>::empty());
        assert(out.deep_view() =~= sort_posts_spec(iv.take(0)));
    }
    while i < items.len()
        invariant
            i <= items.len(),
            iv == items.deep_view(),
            iv.len() == items.len(),
            out.deep_view() == sort_posts_spec(iv.take(i as int)),
            out@.len() == out.deep_view().len(),
        decreases items.len() - i,
    {
        let x = items[i].dup();
        let ghost xv = x.deep_view();
        proof {
            assert(iv[i as int] == items@[i as int].deep_view());
        }
        let mut p: usize = 0;
        while p < out.len() && !post_before_exec(&x, &out[p])
            invariant
                p <= out.len(),
                xv == x.deep_view(),
                forall|k: int|
                    0 <= k < p ==> !post_before(xv, #[trigger] out.deep_view()[k]),
            decreases out.len() - p,
        {
            proof {
                assert(out.deep_view()[p as int] == out@[p as int].deep_view());
            }
            p = p + 1;
        }
        proof {
            if (p as int) < out.deep_view().len() {
                assert(out.deep_view()[p as int] == out@[p as int].deep_view());
            }
            lemma_post_pos_run(out.deep_view(), xv, p as int);
        }
        let ghost before = out.deep_view();
        out.insert(p, x);
        proof {
            assert(out.deep_view() =~= before.insert(p as int, xv));
            assert(iv.take(i + 1).drop_last() =~= iv.take(i as int));
            assert(iv.take(i + 1).last() == iv[i as int]);
        }
        i = i + 1;
    }
    proof {
        assert(iv.take(iv.len() as int) =~= iv);
    }
    out
}

/// The post at the listing position a shorthand denotes, if any.
pub open spec fn resolve_post_spec(rows: Seq<RowM<FeedItemV>>, sh: Seq<char>) -> Option<
    FeedItemV,
> {
    let ps = sort_posts_spec(live_payloads::<FeedItem>(rows));
    match first_shorthand_match(ps, 0, sh) {
        Option::Some(i) => Some(ps[i]),
        Option::None => None,
    }
}

/// The first listing index at or after `i` whose shorthand is `sh`.
pub open spec fn first_shorthand_match(ps: Seq<FeedItemV>, i: int, sh: Seq<char>) -> Option<
    int,
>
    decreases ps.len() - i,
    when 0 <= i <= ps.len()
{
    if i >= ps.len() {
        None
    } else if crate::shorthand::index_to_shorthand_spec(i as nat) == sh {
        Some(i)
    } else {
        first_shorthand_match(ps, i + 1, sh)
    }
}

/// Resolve a post shorthand and hand back the post's link, to be opened
/// by the caller. An unknown shorthand, or a post without a link, reports
/// not-found.
pub fn cmd_open(posts: &Table<FeedItem>, shorthand: &str) -> (r: Result<String, StoreError>)
    requires
        posts.wf(),
    ensures
        match resolve_post_spec(posts.rows_model(), shorthand@) {
            Option::Some(p) => if p.link.len() == 0 {
                r matches Err(StoreError::NotFound)
            } else {
                r matches Ok(link) && (r matches Ok(link) ==> link@ == p.link)
            },
            Option::None => r matches Err(StoreError::NotFound),
        },
{
    let ps = sorted_posts(posts);
    let ghost pv = ps.deep_view();
    let mut i: usize = 0;
    while i < ps.len()
        invariant
            i <= ps.len(),
            pv == ps.deep_view(),
            pv.len() == ps.len(),
            pv == sort_posts_spec(live_payloads::<FeedItem>(posts.rows_model())),
            first_shorthand_match(pv, 0, shorthand@) == first_shorthand_match(
                pv,
                i as int,
                shorthand@,
            ),
        decreases ps.len() - i,
    {
        let sh = crate::shorthand::index_to_shorthand(i);
        if crate::text::str_eq(sh.as_str(), shorthand) {
            proof {
                assert(first_shorthand_match(pv, i as int, shorthand@) == Some(i as int));
                assert(pv[i as int] == ps@[i as int].deep_view());
            }
            let link = ps[i].link.clone();
            if link.as_str().unicode_len() == 0 {
                return Err(StoreError::NotFound);
            }
            return Ok(link);
        }
        proof {
            assert(first_shorthand_match(pv, i as int, shorthand@) == first_shorthand_match(
                pv,
                i as int + 1,
                shorthand@,
            ));
        }
        i = i + 1;
    }
    Err(StoreError::NotFound)
}

} // verus!
