//! Paging plans of the database scans: the history of a file, read in pages
//! up to a cap, and the walk over all files by increasing id.

use vstd::prelude::*;

verus! {

/// Ids read per history page.
pub const HISTORY_PAGE_SIZE: u64 = 1000;

/// No history page is requested at or beyond this many ids.
pub const HISTORY_CAP: u64 = 10000;

/// The reading of a file's history: the ids gathered so far, the page to
/// request next, and whether the reading is over.
pub struct HistoryPager {
    page: u64,
    ids: Vec<i32>,
    done: bool,
}

impl HistoryPager {
    /// The pager's state: at most ten pages are ever requested.
    pub open spec fn wf(&self) -> bool {
        self.page_number() * HISTORY_PAGE_SIZE < HISTORY_CAP
    }

    pub closed spec fn page_number(&self) -> nat {
        self.page as nat
    }

    pub closed spec fn gathered(&self) -> Seq<i32> {
        self.ids@
    }

    pub closed spec fn finished(&self) -> bool {
        self.done
    }

    /// A pager that will request the first page.
    pub fn new() -> (pager: Self)
        ensures
            pager.wf(),
            pager.page_number() == 0,
            pager.gathered() == Seq::<i32>::empty(),
            !pager.finished(),
    {
        HistoryPager { page: 0, ids: Vec::new(), done: false }
    }

    /// Whether no further page is to be requested.
    pub fn is_done(&self) -> (done: bool)
        ensures
            done == self.finished(),
    {
        self.done
    }

    /// The offset of the next page to request.
    pub fn offset(&self) -> (offset: u64)
        requires
            self.wf(),
        ensures
            offset == self.page_number() * HISTORY_PAGE_SIZE,
    {
        self.page * HISTORY_PAGE_SIZE
    }

    /// The number of ids to request per page.
    pub fn limit(&self) -> (limit: u64)
        ensures
            limit == HISTORY_PAGE_SIZE,
    {
        HISTORY_PAGE_SIZE
    }

    /// Takes in the ids that the requested page returned. An empty page ends
    /// the reading; otherwise the ids are kept, and the reading ends when the
    /// next page would start at the cap, else moves on to the next page.
    pub fn accept(&mut self, results: Vec<i32>)
        requires
            old(self).wf(),
            !old(self).finished(),
        ensures
            final(self).wf(),
            accepted(*old(self), results@, *final(self)),
            // While every page holds at most a page's worth of ids, the
            // history never exceeds the cap.
            old(self).gathered().len() <= old(self).page_number() * HISTORY_PAGE_SIZE
                && results@.len() <= HISTORY_PAGE_SIZE ==> {
                &&& final(self).gathered().len() <= HISTORY_CAP
                &&& !final(self).finished() ==> final(self).gathered().len()
                    <= final(self).page_number() * HISTORY_PAGE_SIZE
            },
    {
        if results.len() == 0 {
            self.done = true;
            return;
        }
        let mut k: usize = 0;
        let ghost before = self.ids@;
        while k < results.len()
            invariant
                k <= results@.len(),
                self.ids@ == before + results@.take(k as int),
                self.page * HISTORY_PAGE_SIZE < HISTORY_CAP,
                self.done == old(self).done,
                self.page == old(self).page,
            decreases results@.len() - k,
        {
            self.ids.push(results[k]);
            k = k + 1;
            assert(self.ids@ =~= before + results@.take(k as int));
        }
        assert(results@.take(results@.len() as int) =~= results@);
        if (self.page + 1) * HISTORY_PAGE_SIZE >= HISTORY_CAP {
            self.done = true;
        } else {
            self.page = self.page + 1;
        }
    }

    /// The ids gathered, in the order of the pages.
    pub fn into_ids(self) -> (ids: Vec<i32>)
        ensures
            ids@ == self.gathered(),
    {
        self.ids
    }
}

/// The effect of taking in a page of `results`: an empty page ends the
/// reading and keeps the rest; otherwise the ids are appended, and the
/// reading ends when the next page would start at the cap, else moves on to
/// the next page.
pub open spec fn accepted(before: HistoryPager, results: Seq<i32>, after: HistoryPager) -> bool {
    &&& results.len() == 0 ==> {
        &&& after.finished()
        &&& after.gathered() == before.gathered()
        &&& after.page_number() == before.page_number()
    }
    &&& results.len() > 0 ==> {
        &&& after.gathered() == before.gathered() + results
        &&& ((before.page_number() + 1) * HISTORY_PAGE_SIZE >= HISTORY_CAP ==> {
            &&& after.finished()
            &&& after.page_number() == before.page_number()
        })
        &&& ((before.page_number() + 1) * HISTORY_PAGE_SIZE < HISTORY_CAP ==> {
            &&& !after.finished()
            &&& after.page_number() == before.page_number() + 1
        })
    }
}

/// The smaller of two integers.
pub open spec fn min_of(a: int, b: int) -> int {
    if a <= b {
        a
    } else {
        b
    }
}

/// The page numbered `page` of the list `s`: its ids from
/// `page * HISTORY_PAGE_SIZE` on, at most a page's worth.
pub open spec fn history_page_of(s: Seq<i32>, page: nat) -> Seq<i32> {
    let start = page * HISTORY_PAGE_SIZE;
    if start >= s.len() {
        Seq::empty()
    } else {
        s.subrange(start as int, min_of(start + HISTORY_PAGE_SIZE, s.len() as int))
    }
}

/// Read page by page from a list of ids, the history is a prefix of the
/// list, and when the reading ends it is the list's first ids up to the cap:
/// a pager that holds the list's ids before its current page, and takes in
/// that page, holds the ids before its next page, or, when done, the first
/// `min(HISTORY_CAP, s.len())` ids.
pub proof fn lemma_history_reads_prefix(
    s: Seq<i32>,
    before: HistoryPager,
    results: Seq<i32>,
    after: HistoryPager,
)
    requires
        before.wf(),
        !before.finished(),
        before.gathered() == s.take(min_of(before.page_number() * HISTORY_PAGE_SIZE, s.len() as int)),
        results == history_page_of(s, before.page_number()),
        accepted(before, results, after),
    ensures
        !after.finished() ==> after.gathered() == s.take(
            min_of(after.page_number() * HISTORY_PAGE_SIZE, s.len() as int),
        ),
        after.finished() ==> after.gathered() == s.take(min_of(HISTORY_CAP as int, s.len() as int)),
{
    let start = before.page_number() * HISTORY_PAGE_SIZE;
    if start >= s.len() {
        assert(s.take(s.len() as int) =~= s);
    } else {
        let end = min_of(start + HISTORY_PAGE_SIZE, s.len() as int);
        assert(s.take(start as int) + s.subrange(start as int, end) =~= s.take(end));
    }
}

/// A whole history read gives the first ids of the list up to the cap, in at
/// most ten pages: with `ps[0]` a fresh pager and each `ps[i + 1]` what
/// `ps[i]` becomes when it takes in its page of `s`, the first finished
/// pager `ps[t]` holds the first `min(HISTORY_CAP, s.len())` ids of `s`,
/// after `t <= 10` pages were requested. So the history holds only ids of
/// the list, at most the cap of them, and in the list's order: ascending
/// where the list is.
pub proof fn lemma_history_read_whole(s: Seq<i32>, ps: Seq<HistoryPager>, t: int)
    requires
        t >= 0,
        ps.len() == t + 1,
        ps[0].page_number() == 0,
        ps[0].gathered() == Seq::<i32>::empty(),
        !ps[0].finished(),
        forall|i: int| 0 <= i <= t ==> (#[trigger] ps[i]).wf(),
        forall|i: int| 0 <= i < t ==> !(#[trigger] ps[i]).finished(),
        ps[t].finished(),
        forall|i: int|
            0 <= i < t ==> accepted(
                #[trigger] ps[i],
                history_page_of(s, ps[i].page_number()),
                ps[i + 1],
            ),
    ensures
        ps[t].gathered() == s.take(min_of(HISTORY_CAP as int, s.len() as int)),
        t <= HISTORY_CAP / HISTORY_PAGE_SIZE,
        ps[t].gathered().len() <= HISTORY_CAP,
        forall|x: i32| ps[t].gathered().contains(x) ==> s.contains(x),
        strictly_increasing(s) ==> strictly_increasing(ps[t].gathered()),
{
    lemma_history_read_steps(s, ps, t, t - 1);
    lemma_history_reads_prefix(
        s,
        ps[t - 1],
        history_page_of(s, ps[t - 1].page_number()),
        ps[t],
    );
    let h = ps[t].gathered();
    assert forall|x: i32| h.contains(x) implies s.contains(x) by {
        let k: int = choose|k: int| 0 <= k < h.len() && h[k] == x;
        assert(s[k] == x);
    }
}

proof fn lemma_history_read_steps(s: Seq<i32>, ps: Seq<HistoryPager>, t: int, i: int)
    requires
        t >= 0,
        ps.len() == t + 1,
        ps[0].page_number() == 0,
        ps[0].gathered() == Seq::<i32>::empty(),
        forall|j: int| 0 <= j <= t ==> (#[trigger] ps[j]).wf(),
        forall|j: int| 0 <= j < t ==> !(#[trigger] ps[j]).finished(),
        forall|j: int|
            0 <= j < t ==> accepted(
                #[trigger] ps[j],
                history_page_of(s, ps[j].page_number()),
                ps[j + 1],
            ),
        0 <= i < t,
    ensures
        ps[i].page_number() == i,
        ps[i].gathered() == s.take(min_of(ps[i].page_number() * HISTORY_PAGE_SIZE, s.len() as int)),
    decreases i,
{
    if i > 0 {
        lemma_history_read_steps(s, ps, t, i - 1);
        assert(!ps[i - 1].finished());
        assert(!ps[i].finished());
        assert(accepted(ps[i - 1], history_page_of(s, ps[i - 1].page_number()), ps[i]));
        lemma_history_reads_prefix(
            s,
            ps[i - 1],
            history_page_of(s, ps[i - 1].page_number()),
            ps[i],
        );
    } else {
        assert(s.take(0) =~= Seq::<i32>::empty());
    }
}

/// A pager stays within the cap: the page it is about to request starts
/// below the cap, so at most ten pages of history are ever read.
pub proof fn lemma_history_pages_bounded(pager: HistoryPager)
    requires
        pager.wf(),
    ensures
        pager.page_number() < HISTORY_CAP / HISTORY_PAGE_SIZE,
{
}

/// The walk over all files by increasing id: the last id seen.
pub struct PageCursor {
    pub last_id: i32,
}

impl PageCursor {
    /// A cursor before the first file.
    pub fn new() -> (cursor: Self)
        ensures
            cursor.last_id == 0,
    {
        PageCursor { last_id: 0 }
    }

    /// Takes in the ids of the page just read. An empty page ends the walk
    /// and leaves the cursor; otherwise the cursor moves to the page's last
    /// id and the walk goes on.
    pub fn advance(&mut self, page_ids: &[i32]) -> (more: bool)
        ensures
            more == (page_ids@.len() > 0),
            page_ids@.len() == 0 ==> final(self).last_id == old(self).last_id,
            page_ids@.len() > 0 ==> final(self).last_id == page_ids@.last(),
            page_ids@.len() > 0 && (forall|i: int|
                0 <= i < page_ids@.len() ==> #[trigger] page_ids@[i] > old(self).last_id)
                ==> final(self).last_id > old(self).last_id,
    {
        if page_ids.len() == 0 {
            false
        } else {
            self.last_id = page_ids[page_ids.len() - 1];
            true
        }
    }
}

/// The ids `s` are strictly increasing.
pub open spec fn strictly_increasing(s: Seq<i32>) -> bool {
    forall|a: int, b: int| 0 <= a < b < s.len() ==> #[trigger] s[a] < #[trigger] s[b]
}

/// The cursor `last_id` splits the increasing ids `s` at `k`: the first `k`
/// ids are at or below it, the others above.
pub open spec fn splits_at(s: Seq<i32>, last_id: i32, k: int) -> bool {
    &&& 0 <= k <= s.len()
    &&& forall|j: int| 0 <= j < k ==> #[trigger] s[j] <= last_id
    &&& forall|j: int| k <= j < s.len() ==> #[trigger] s[j] > last_id
}

/// The walk over all files goes through consecutive runs of them: when the
/// cursor splits the increasing ids at `k` and a page holds the next ids
/// `s[k .. k + m]`, moving the cursor to the page's last id splits the ids at
/// `k + m`. Pages read this way therefore cover every file once, in order.
pub proof fn lemma_cursor_walks_consecutive_runs(s: Seq<i32>, last_id: i32, k: int, m: int)
    requires
        strictly_increasing(s),
        splits_at(s, last_id, k),
        0 < m,
        k + m <= s.len(),
    ensures
        splits_at(s, s.subrange(k, k + m).last(), k + m),
{
    let new_last = s[k + m - 1];
    assert(s.subrange(k, k + m).last() == new_last);
    assert forall|j: int| 0 <= j < k + m implies #[trigger] s[j] <= new_last by {
        if j < k + m - 1 {
            assert(s[j] < s[k + m - 1]);
        }
    }
    assert forall|j: int| k + m <= j < s.len() implies #[trigger] s[j] > new_last by {
        assert(s[k + m - 1] < s[j]);
    }
}

/// A cursor splits a list at one place only.
proof fn lemma_split_unique(s: Seq<i32>, last_id: i32, k1: int, k2: int)
    requires
        splits_at(s, last_id, k1),
        splits_at(s, last_id, k2),
    ensures
        k1 == k2,
{
    if k1 < k2 {
        assert(s[k1] > last_id);
        assert(s[k1] <= last_id);
    } else if k2 < k1 {
        assert(s[k2] > last_id);
        assert(s[k2] <= last_id);
    }
}

/// The page that the walk reads from a cursor that splits the ids at `k`:
/// the next ids above the cursor, at most `m` of them.
pub open spec fn page_at(s: Seq<i32>, k: int, m: int) -> Seq<i32> {
    s.subrange(k, min_of(k + m, s.len() as int))
}

/// A whole walk over the files covers every file once, in order: with the
/// ids `s` increasing, pages of at most `m` ids read from a cursor that
/// starts below every id, and the cursor moved to each page's last id, the
/// `i`-th page is `s[i * m ..]` cut to `m` ids, the walk stops after the
/// first empty page, and it reads `t` pages where `t` is the least number
/// with `t * m >= s.len()`; there is no page at all when there are no files.
/// `ks[i]` is where cursor `i` splits the ids.
pub proof fn lemma_cursor_walk_covers_files(
    s: Seq<i32>,
    m: int,
    cursors: Seq<i32>,
    ks: Seq<int>,
    t: int,
)
    requires
        strictly_increasing(s),
        m > 0,
        t >= 0,
        cursors.len() == t + 1,
        ks.len() == t + 1,
        ks[0] == 0,
        forall|i: int| 0 <= i <= t ==> splits_at(s, #[trigger] cursors[i], ks[i]),
        forall|i: int|
            0 <= i < t ==> (#[trigger] page_at(s, ks[i], m)).len() > 0 && cursors[i + 1] == page_at(
                s,
                ks[i],
                m,
            ).last(),
        page_at(s, ks[t], m).len() == 0,
    ensures
        forall|i: int|
            0 <= i < t ==> #[trigger] page_at(s, ks[i], m) == s.subrange(
                i * m,
                min_of((i + 1) * m, s.len() as int),
            ),
        t * m >= s.len(),
        t > 0 ==> (t - 1) * m < s.len(),
        t == 0 <==> s.len() == 0,
{
    lemma_walk_splits(s, m, cursors, ks, t, t);
    assert forall|i: int| 0 <= i < t implies #[trigger] page_at(s, ks[i], m) == s.subrange(
        i * m,
        min_of((i + 1) * m, s.len() as int),
    ) by {
        lemma_walk_splits(s, m, cursors, ks, t, i);
        assert(page_at(s, ks[i], m).len() > 0);
        assert((i + 1) * m == i * m + m) by (nonlinear_arith);
    }
    if t > 0 {
        lemma_walk_splits(s, m, cursors, ks, t, t - 1);
        assert(page_at(s, ks[t - 1], m).len() > 0);
        assert(t * m == (t - 1) * m + m) by (nonlinear_arith);
    }
}

proof fn lemma_walk_splits(s: Seq<i32>, m: int, cursors: Seq<i32>, ks: Seq<int>, t: int, i: int)
    requires
        strictly_increasing(s),
        m > 0,
        t >= 0,
        cursors.len() == t + 1,
        ks.len() == t + 1,
        ks[0] == 0,
        forall|j: int| 0 <= j <= t ==> splits_at(s, #[trigger] cursors[j], ks[j]),
        forall|j: int|
            0 <= j < t ==> (#[trigger] page_at(s, ks[j], m)).len() > 0 && cursors[j + 1] == page_at(
                s,
                ks[j],
                m,
            ).last(),
        page_at(s, ks[t], m).len() == 0,
        0 <= i <= t,
    ensures
        ks[i] == min_of(i * m, s.len() as int),
        i == t ==> ks[i] >= s.len(),
        i < t ==> ks[i] < s.len(),
    decreases i,
{
    assert(splits_at(s, cursors[i], ks[i]));
    if i > 0 {
        lemma_walk_splits(s, m, cursors, ks, t, i - 1);
        let k = ks[i - 1];
        let page = page_at(s, k, m);
        assert(page.len() > 0);
        let len = page.len() as int;
        assert(splits_at(s, cursors[i - 1], k));
        lemma_cursor_walks_consecutive_runs(s, cursors[i - 1], k, len);
        assert(s.subrange(k, k + len) == page);
        assert(splits_at(s, cursors[i], ks[i]));
        lemma_split_unique(s, cursors[i], ks[i], k + len);
        assert(i * m == (i - 1) * m + m) by (nonlinear_arith);
    }
    if i == t {
        assert(page_at(s, ks[t], m).len() == 0);
    } else {
        assert(page_at(s, ks[i], m).len() > 0);
    }
}

} // verus!
