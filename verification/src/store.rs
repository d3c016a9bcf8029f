//! The database layer: the named tables of the reader, bundled.
//!
//! A store holds one table of feed subscriptions and one of posts.
//! Mutation runs against the in-memory tables; committing a transaction
//! renders every table to its shard files in one step, which the caller
//! writes to disk and snapshots in version control.

use vstd::prelude::*;
use crate::error::StoreError;
use crate::feed::FeedItem;
use crate::feed::FeedSource;
use crate::table::ShardFile;
use crate::table::Table;

verus! {

/// The reader's database: its two tables.
pub struct Store {
    feeds: Table<FeedSource>,
    posts: Table<FeedItem>,
}

impl Store {
    /// Both tables are well-formed.
    pub closed spec fn wf(&self) -> bool {
        self.feeds.wf() && self.posts.wf()
    }

    /// The feeds table's logical state.
    pub closed spec fn feeds_model(&self) -> Map<
        Seq<char>,
        crate::row::RowM<crate::feed::FeedSourceV>,
    > {
        self.feeds.model()
    }

    /// The posts table's logical state.
    pub closed spec fn posts_model(&self) -> Map<
        Seq<char>,
        crate::row::RowM<crate::feed::FeedItemV>,
    > {
        self.posts.model()
    }

    /// Open a store from the two tables' directory listings: both tables
    /// hold exactly what their shard files held, and a failing load names
    /// the offending file — the feeds listing is read first.
    pub fn open(feed_files: &Vec<ShardFile>, post_files: &Vec<ShardFile>) -> (r: Result<
        Store,
        StoreError,
    >)
        ensures
            match r {
                Ok(s) => s.wf() && crate::table::load_spec::<FeedSource>(
                    feed_files.deep_view(),
                ) is Ok && crate::table::load_spec::<FeedItem>(post_files.deep_view()) is Ok
                    && s.feeds_model() == crate::table::map_of::<FeedSource>(
                    crate::table::load_spec::<FeedSource>(feed_files.deep_view())->Ok_0,
                ) && s.posts_model() == crate::table::map_of::<FeedItem>(
                    crate::table::load_spec::<FeedItem>(post_files.deep_view())->Ok_0,
                ),
                Err(e) => match e {
                    StoreError::ParseError { file } => crate::table::load_spec::<FeedSource>(
                        feed_files.deep_view(),
                    ) == Err::<Seq<crate::row::RowM<crate::feed::FeedSourceV>>, Seq<char>>(
                        file@,
                    ) || (crate::table::load_spec::<FeedSource>(feed_files.deep_view()) is Ok
                        && crate::table::load_spec::<FeedItem>(post_files.deep_view())
                        == Err::<Seq<crate::row::RowM<crate::feed::FeedItemV>>, Seq<char>>(
                        file@,
                    )),
                    _ => false,
                },
            },
    {
        let feeds = match Table::<FeedSource>::load(feed_files) {
            Ok(t) => t,
            Err(e) => {
                return Err(e);
            },
        };
        let posts = match Table::<FeedItem>::load(post_files) {
            Ok(t) => t,
            Err(e) => {
                return Err(e);
            },
        };
        Ok(Store { feeds, posts })
    }

    /// A store over already-loaded tables.
    pub fn new(feeds: Table<FeedSource>, posts: Table<FeedItem>) -> (r: Store)
        requires
            feeds.wf(),
            posts.wf(),
        ensures
            r.wf(),
            r.feeds_model() == feeds.model(),
            r.posts_model() == posts.model(),
    {
        Store { feeds, posts }
    }

    /// Read-only access to the feeds table.
    pub fn feeds(&self) -> (r: &Table<FeedSource>)
        requires
            self.wf(),
        ensures
            r.wf(),
            r.model() == self.feeds_model(),
    {
        &self.feeds
    }

    /// Read-only access to the posts table.
    pub fn posts(&self) -> (r: &Table<FeedItem>)
        requires
            self.wf(),
        ensures
            r.wf(),
            r.model() == self.posts_model(),
    {
        &self.posts
    }

    /// Replace the feeds table: the write-back step of a transaction's
    /// feed mutations.
    pub fn set_feeds(&mut self, feeds: Table<FeedSource>)
        requires
            feeds.wf(),
        ensures
            final(self).feeds_model() == feeds.model(),
            final(self).posts_model() == old(self).posts_model(),
            old(self).wf() ==> final(self).wf(),
    {
        self.feeds = feeds;
    }

    /// Replace the posts table: the write-back step of a transaction's
    /// post mutations.
    pub fn set_posts(&mut self, posts: Table<FeedItem>)
        requires
            posts.wf(),
        ensures
            final(self).posts_model() == posts.model(),
            final(self).feeds_model() == old(self).feeds_model(),
            old(self).wf() ==> final(self).wf(),
    {
        self.posts = posts;
    }

    /// Take the store apart into its tables, mutate them, and rebuild it
    /// with `new`: the shape of a transaction.
    pub fn into_tables(self) -> (r: (Table<FeedSource>, Table<FeedItem>))
        requires
            self.wf(),
        ensures
            r.0.wf(),
            r.1.wf(),
            r.0.model() == self.feeds_model(),
            r.1.model() == self.posts_model(),
    {
        (self.feeds, self.posts)
    }

    /// Render both tables to their shard files: the commit step of a
    /// transaction. The first listing holds the feeds, the second the
    /// posts; each loads back to exactly the table it was rendered from.
    pub fn save(&self) -> (r: (Vec<ShardFile>, Vec<ShardFile>))
        requires
            self.wf(),
        ensures
            crate::table::load_spec::<FeedSource>(r.0.deep_view()) is Ok,
            crate::table::load_spec::<FeedItem>(r.1.deep_view()) is Ok,
            crate::table::map_of::<FeedSource>(
                crate::table::load_spec::<FeedSource>(r.0.deep_view())->Ok_0,
            ) == self.feeds_model(),
            crate::table::map_of::<FeedItem>(
                crate::table::load_spec::<FeedItem>(r.1.deep_view())->Ok_0,
            ) == self.posts_model(),
    {
        (self.feeds.save(), self.posts.save())
    }
}

} // verus!
