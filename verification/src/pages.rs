//! Walking the listing page by page: which page to ask for next, and when
//! to stop.
//!
//! The caller fetches each page; this module keeps what has come in and
//! decides whether another page is needed.
use crate::model::ReplayCount;
use crate::model::ReplayCountView;
use crate::most_played::set_ids;
use std::collections::HashSet;
use vstd::prelude::*;
use vstd::string::StringExecFns;

verus! {

/// The records asked for in one request.
pub const PAGE_SIZE: u32 = 100;

/// The retries allowed for the request of one page.
pub const PAGE_RETRIES: u32 = 3;

/// The text of one decimal digit.
pub open spec fn digit_text(digit: nat) -> Seq<char> {
    if digit == 0 {
        "0"@
    } else if digit == 1 {
        "1"@
    } else if digit == 2 {
        "2"@
    } else if digit == 3 {
        "3"@
    } else if digit == 4 {
        "4"@
    } else if digit == 5 {
        "5"@
    } else if digit == 6 {
        "6"@
    } else if digit == 7 {
        "7"@
    } else if digit == 8 {
        "8"@
    } else {
        "9"@
    }
}

/// `number` in decimal digits, without leading zeros.
pub open spec fn decimal_text(number: nat) -> Seq<char>
    decreases number,
{
    if number < 10 {
        digit_text(number)
    } else {
        decimal_text(number / 10) + digit_text(number % 10)
    }
}

/// The address of the page numbered `offset` of the most-played listing of
/// the user `user_id`, at the service found at `api_url_base`.
pub open spec fn page_url(
    api_url_base: Seq<char>,
    user_id: Seq<char>,
    page_size: nat,
    offset: nat,
) -> Seq<char> {
    api_url_base + "/users/"@ + user_id + "/beatmapsets/most_played?limit="@ + decimal_text(
        page_size,
    ) + "&offset="@ + decimal_text(offset)
}

/// The state of a walk through the listing.
pub struct PagesView {
    /// The records that have come in, in their order.
    pub records: Seq<ReplayCountView>,
    /// The number of the page to ask for next.
    pub offset: nat,
    /// How many distinct sets are wanted, if the caller has set a limit.
    pub limit: Option<u64>,
    /// Whether the walk is over.
    pub finished: bool,
}

impl PagesView {
    /// Whether the records that have come in are of as many distinct sets as
    /// the limit asks for.
    pub open spec fn limit_reached(self) -> bool {
        match self.limit {
            Some(wanted) => set_ids(self.records).len() >= wanted,
            None => false,
        }
    }

    /// The walk once the page asked for has come in as `page`. An empty page
    /// ends the walk: the listing is exhausted. Any other page is added to
    /// the records; the walk ends behind it if the limit is reached, and
    /// goes on to the next page if not. A walk that is over takes no page.
    pub open spec fn accepted(self, page: Seq<ReplayCountView>) -> PagesView {
        if self.finished {
            self
        } else if page.len() == 0 {
            PagesView { finished: true, ..self }
        } else {
            let grown = PagesView { records: self.records + page, ..self };
            if grown.limit_reached() {
                PagesView { finished: true, ..grown }
            } else {
                PagesView { offset: self.offset + 1, ..grown }
            }
        }
    }

    /// The walk once each of `pages` has come in, in turn.
    pub open spec fn accepted_all(self, pages: Seq<Seq<ReplayCountView>>) -> PagesView
        decreases pages.len(),
    {
        if pages.len() == 0 {
            self
        } else {
            self.accepted_all(pages.drop_last()).accepted(pages.last())
        }
    }
}

/// A walk through the most-played listing of one user.
pub struct MostPlayedPages {
    replay_counts: Vec<ReplayCount>,
    unique_set_ids: HashSet<u32>,
    offset: usize,
    limit: Option<u64>,
    finished: bool,
}

impl View for MostPlayedPages {
    type V = PagesView;

    closed spec fn view(&self) -> PagesView {
        PagesView {
            records: self.replay_counts.deep_view(),
            offset: self.offset as nat,
            limit: self.limit,
            finished: self.finished,
        }
    }
}

impl MostPlayedPages {
    /// The walk knows the sets of its records, and has asked for no more
    /// pages than it has records.
    pub closed spec fn wf(&self) -> bool {
        &&& self.unique_set_ids@ == set_ids(self.replay_counts.deep_view())
        &&& self.unique_set_ids@.finite()
        &&& self.offset <= self.replay_counts.len()
    }

    /// A walk that has not asked for any page yet, and that is to end once
    /// records of `limit` distinct sets have come in, if a limit is given.
    pub fn new(limit: Option<u64>) -> (pages: Self)
        ensures
            pages.wf(),
            pages@ == (PagesView { records: Seq::empty(), offset: 0, limit, finished: false }),
    {
        let pages = MostPlayedPages {
            replay_counts: Vec::new(),
            unique_set_ids: HashSet::new(),
            offset: 0,
            limit,
            finished: false,
        };
        assert(pages.replay_counts.deep_view() =~= Seq::empty());
        assert(set_ids(Seq::empty()) =~= Set::<u32>::empty());
        pages
    }

    /// Whether the walk is over.
    pub fn is_finished(&self) -> (finished: bool)
        ensures
            finished == self@.finished,
    {
        self.finished
    }

    /// The number of the page to ask for next.
    pub fn offset(&self) -> (offset: usize)
        ensures
            offset == self@.offset,
    {
        self.offset
    }

    /// The address of the page to ask for next.
    pub fn next_url(&self, api_url_base: &str, user_id: &str) -> (url: String)
        ensures
            url@ == page_url(api_url_base@, user_id@, PAGE_SIZE as nat, self@.offset),
    {
        most_played_url(api_url_base, user_id, PAGE_SIZE as u64, self.offset as u64)
    }

    /// Takes in the page that was asked for and says whether another page is
    /// to be asked for.
    pub fn accept_page(&mut self, page: Vec<ReplayCount>) -> (more: bool)
        requires
            old(self).wf(),
        ensures
            final(self).wf(),
            final(self)@ == old(self)@.accepted(page.deep_view()),
            more == !final(self)@.finished,
    {
        if self.finished {
            return false;
        }
        if page.is_empty() {
            self.finished = true;
            return false;
        }
        let ghost before = self.replay_counts.deep_view();
        let ghost incoming = page.deep_view();
        let mut page = page;
        let mut i: usize = 0;
        assert(before + incoming.take(0) =~= before);
        while i < page.len()
            invariant
                i <= page.len(),
                page.deep_view() == incoming,
                self.replay_counts.deep_view() == before,
                self.unique_set_ids@ == set_ids(before + incoming.take(i as int)),
                self.unique_set_ids@.finite(),
                self.offset == old(self).offset,
                self.limit == old(self).limit,
                self.finished == old(self).finished,
            decreases page.len() - i,
        {
            self.unique_set_ids.insert(page[i].beatmapset.id);
            proof {
                lemma_set_ids_push(before + incoming.take(i as int), incoming[i as int]);
                assert((before + incoming.take(i as int)).push(incoming[i as int]) =~= before
                    + incoming.take(i + 1));
            }
            i += 1;
        }
        assert(incoming.take(i as int) =~= incoming);
        self.replay_counts.append(&mut page);
        assert(self.replay_counts.deep_view() =~= before + incoming);
        assert(self.offset < self.replay_counts.len()) by {
            assert(self.replay_counts.deep_view().len() == before.len() + incoming.len());
        }
        let reached = match self.limit {
            Some(wanted) => self.unique_set_ids.len() as u64 >= wanted,
            None => false,
        };
        if reached {
            self.finished = true;
            false
        } else {
            self.offset = self.offset + 1;
            true
        }
    }

    /// The records that have come in, in their order.
    pub fn into_records(self) -> (records: Vec<ReplayCount>)
        ensures
            records.deep_view() == self@.records,
    {
        self.replay_counts
    }
}

/// The records of `pages`, page behind page.
pub open spec fn joined(pages: Seq<Seq<ReplayCountView>>) -> Seq<ReplayCountView>
    decreases pages.len(),
{
    if pages.len() == 0 {
        Seq::empty()
    } else {
        joined(pages.drop_last()) + pages.last()
    }
}

/// A walk without a limit takes in every page that has records, and goes on
/// to the page behind it.
pub proof fn lemma_walk_takes_every_page(start: PagesView, pages: Seq<Seq<ReplayCountView>>)
    requires
        !start.finished,
        start.limit is None,
        forall|i: int| 0 <= i < pages.len() ==> (#[trigger] pages[i]).len() > 0,
    ensures
        start.accepted_all(pages) == (PagesView {
            records: start.records + joined(pages),
            offset: start.offset + pages.len(),
            ..start
        }),
    decreases pages.len(),
{
    if pages.len() == 0 {
        assert(start.records + joined(pages) =~= start.records);
    } else {
        let earlier = pages.drop_last();
        assert forall|i: int| 0 <= i < earlier.len() implies (#[trigger] earlier[i]).len() > 0 by {
            assert(pages[i].len() > 0);
        }
        lemma_walk_takes_every_page(start, earlier);
        assert(pages[pages.len() - 1].len() > 0);
        assert((start.records + joined(earlier)) + pages.last() =~= start.records + joined(pages));
    }
}

/// A walk without a limit ends at the first empty page, with the records of
/// all the pages in front of it.
pub proof fn lemma_walk_ends_at_empty_page(start: PagesView, pages: Seq<Seq<ReplayCountView>>)
    requires
        !start.finished,
        start.limit is None,
        forall|i: int| 0 <= i < pages.len() ==> (#[trigger] pages[i]).len() > 0,
    ensures
        start.accepted_all(pages.push(Seq::empty())) == (PagesView {
            records: start.records + joined(pages),
            offset: start.offset + pages.len(),
            finished: true,
            ..start
        }),
{
    lemma_walk_takes_every_page(start, pages);
    assert(pages.push(Seq::empty()).drop_last() =~= pages);
}

/// A walk with a limit ends behind the first page with which the records
/// are of as many distinct sets as the limit asks for, and keeps that page
/// whole.
pub proof fn lemma_walk_ends_at_limit(
    start: PagesView,
    pages: Seq<Seq<ReplayCountView>>,
    wanted: u64,
)
    requires
        !start.finished,
        start.limit == Some(wanted),
        pages.len() > 0,
        forall|i: int| 0 <= i < pages.len() ==> (#[trigger] pages[i]).len() > 0,
        forall|count: int|
            0 < count < pages.len() ==> set_ids(
                start.records + #[trigger] joined(pages.take(count)),
            ).len() < wanted,
        set_ids(start.records + joined(pages)).len() >= wanted,
    ensures
        start.accepted_all(pages) == (PagesView {
            records: start.records + joined(pages),
            offset: (start.offset + pages.len() - 1) as nat,
            finished: true,
            ..start
        }),
{
    let earlier = pages.drop_last();
    lemma_walk_goes_on_below_limit(start, pages, wanted, earlier.len() as int);
    assert(pages.take(earlier.len() as int) =~= earlier);
    assert(pages[pages.len() - 1].len() > 0);
    assert((start.records + joined(earlier)) + pages.last() =~= start.records + joined(pages));
}

/// While the records are of fewer distinct sets than the limit asks for, a
/// walk takes in every page that has records.
pub proof fn lemma_walk_goes_on_below_limit(
    start: PagesView,
    pages: Seq<Seq<ReplayCountView>>,
    wanted: u64,
    count: int,
)
    requires
        !start.finished,
        start.limit == Some(wanted),
        0 <= count <= pages.len(),
        forall|i: int| 0 <= i < count ==> (#[trigger] pages[i]).len() > 0,
        forall|shorter: int|
            0 < shorter <= count ==> set_ids(
                start.records + #[trigger] joined(pages.take(shorter)),
            ).len() < wanted,
    ensures
        start.accepted_all(pages.take(count)) == (PagesView {
            records: start.records + joined(pages.take(count)),
            offset: start.offset + count as nat,
            ..start
        }),
    decreases count,
{
    let taken = pages.take(count);
    if count == 0 {
        assert(start.records + joined(taken) =~= start.records);
    } else {
        lemma_walk_goes_on_below_limit(start, pages, wanted, count - 1);
        assert(taken.drop_last() =~= pages.take(count - 1));
        assert(taken.last() == pages[count - 1]);
        assert(pages[count - 1].len() > 0);
        assert((start.records + joined(pages.take(count - 1))) + taken.last() =~= start.records
            + joined(taken));
    }
}

/// With one more record, its set is one of the sets.
pub proof fn lemma_set_ids_push(records: Seq<ReplayCountView>, record: ReplayCountView)
    ensures
        set_ids(records.push(record)) == set_ids(records).insert(record.beatmapset.id),
{
    let grown = records.push(record);
    assert forall|id: u32| set_ids(grown).contains(id) <==> set_ids(records).insert(
        record.beatmapset.id,
    ).contains(id) by {
        if set_ids(grown).contains(id) {
            let k = choose|k: int| 0 <= k < grown.len() && (#[trigger] grown[k]).beatmapset.id == id;
            if k < records.len() {
                assert(records[k].beatmapset.id == id);
            }
        }
        if set_ids(records).contains(id) {
            let k = choose|k: int|
                0 <= k < records.len() && (#[trigger] records[k]).beatmapset.id == id;
            assert(grown[k].beatmapset.id == id);
        }
        if id == record.beatmapset.id {
            assert(grown[records.len() as int].beatmapset.id == id);
        }
    }
    assert(set_ids(grown) =~= set_ids(records).insert(record.beatmapset.id));
}

/// The text of the decimal digit `digit`.
fn digit_str(digit: u64) -> (text: &'static str)
    requires
        digit < 10,
    ensures
        text@ == digit_text(digit as nat),
{
    if digit == 0 {
        "0"
    } else if digit == 1 {
        "1"
    } else if digit == 2 {
        "2"
    } else if digit == 3 {
        "3"
    } else if digit == 4 {
        "4"
    } else if digit == 5 {
        "5"
    } else if digit == 6 {
        "6"
    } else if digit == 7 {
        "7"
    } else if digit == 8 {
        "8"
    } else {
        "9"
    }
}

/// `number` in decimal digits, without leading zeros.
pub fn decimal(number: u64) -> (text: String)
    ensures
        text@ == decimal_text(number as nat),
    decreases number,
{
    if number < 10 {
        digit_str(number).to_string()
    } else {
        decimal(number / 10).concat(digit_str(number % 10))
    }
}

/// The address of the page numbered `offset`, of `page_size` records, of the
/// most-played listing of the user `user_id`, at the service found at
/// `api_url_base`.
pub fn most_played_url(api_url_base: &str, user_id: &str, page_size: u64, offset: u64) -> (url:
    String)
    ensures
        url@ == page_url(api_url_base@, user_id@, page_size as nat, offset as nat),
{
    let mut url = api_url_base.to_string();
    url.append("/users/");
    url.append(user_id);
    url.append("/beatmapsets/most_played?limit=");
    url.append(decimal(page_size).as_str());
    url.append("&offset=");
    url.append(decimal(offset).as_str());
    url
}

} // verus!
