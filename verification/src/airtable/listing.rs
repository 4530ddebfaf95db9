use vstd::prelude::*;

use crate::airtable::client::pairs_view;
use crate::airtable::{GetRecordsParams, Record};

verus! {

/// The query pairs of one page request: the listing's own pairs, then the
/// `offset` pair when a previous page named where to continue.
pub open spec fn page_query(formula: Option<Seq<char>>, offset: Option<Seq<char>>) -> Seq<
    (Seq<char>, Seq<char>),
> {
    let base = match formula {
        Some(f) => seq![("filterByFormula"@, f)],
        None => Seq::empty(),
    };
    match offset {
        Some(o) => base.push(("offset"@, o)),
        None => base,
    }
}

/// The offset pair of a page query carries the offset that the previous page
/// named, as it was given, and follows the listing's own pairs: the formula
/// pair, when there is one, with the formula as it was given.
pub proof fn lemma_page_query_sends_offset_verbatim(formula: Option<Seq<char>>, offset: Seq<char>)
    ensures
        page_query(formula, Some(offset)).len() == page_query(formula, None).len() + 1,
        page_query(formula, Some(offset)).last() == ("offset"@, offset),
        page_query(formula, Some(offset)).drop_last() == page_query(formula, None),
        page_query(formula, None).len() == if formula is Some {
            1int
        } else {
            0int
        },
        formula matches Some(f) ==> page_query(formula, None)[0] == ("filterByFormula"@, f),
{
    assert(page_query(formula, Some(offset)).drop_last() =~= page_query(formula, None));
}

/// The progress of listing a table page by page: the records gathered so far,
/// and where the next page starts.
///
/// Airtable answers a listing with one page of records and, when more follow,
/// an offset to ask for the next page with. The listing ends with the first
/// page that names no offset.
pub struct RecordPager<F> {
    params: GetRecordsParams,
    offset: Option<String>,
    records: Vec<Record<F>>,
    finished: bool,
}

impl<F> RecordPager<F> {
    /// The formula filter of the listing.
    pub closed spec fn formula(&self) -> Option<Seq<char>> {
        self.params.formula()
    }

    /// Where the next page starts, as the last page named it.
    pub closed spec fn offset(&self) -> Option<Seq<char>> {
        match &self.offset {
            Some(o) => Some(o@),
            None => None,
        }
    }

    /// The records of the pages received so far, in order.
    pub closed spec fn gathered(&self) -> Seq<Record<F>> {
        self.records@
    }

    /// Whether the last page has been received.
    pub closed spec fn finished(&self) -> bool {
        self.finished
    }

    /// Starts a listing with these parameters: nothing gathered, no offset.
    pub fn new(params: GetRecordsParams) -> (pager: Self)
        ensures
            pager.formula() == params.formula(),
            pager.offset() is None,
            pager.gathered() == Seq::<Record<F>>::empty(),
            !pager.finished(),
    {
        RecordPager { params, offset: None, records: Vec::new(), finished: false }
    }

    /// The query pairs to request the next page with.
    pub fn query(&self) -> (pairs: Vec<(&str, &str)>)
        ensures
            pairs_view(pairs@) == page_query(self.formula(), self.offset()),
    {
        let mut pairs = self.params.url_params();
        if let Some(offset) = &self.offset {
            pairs.push(("offset", offset.as_str()));
        }
        proof {
            reveal_strlit("filterByFormula");
            reveal_strlit("offset");
            let expected = page_query(self.formula(), self.offset());
            assert(pairs_view(pairs@) =~= expected);
        }
        pairs
    }

    /// Takes in one page: its records join those gathered, and the listing
    /// goes on from the page's offset, or ends where the page names none.
    pub fn receive_page(&mut self, page: Vec<Record<F>>, next_offset: Option<String>)
        requires
            !old(self).finished(),
        ensures
            final(self).formula() == old(self).formula(),
            final(self).gathered() == old(self).gathered() + page@,
            final(self).offset() == match next_offset {
                Some(o) => Some(o@),
                None => None::<Seq<char>>,
            },
            final(self).finished() == (next_offset is None),
    {
        let mut page = page;
        self.records.append(&mut page);
        self.finished = next_offset.is_none();
        self.offset = next_offset;
    }

    /// Whether the last page has been received.
    pub fn is_finished(&self) -> (f: bool)
        ensures
            f == self.finished(),
    {
        self.finished
    }

    /// The records gathered from all pages, in order.
    pub fn into_records(self) -> (records: Vec<Record<F>>)
        ensures
            records@ == self.gathered(),
    {
        self.records
    }
}

} // verus!
