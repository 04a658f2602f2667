//! One session of scanning: a crawl and the character sets it gathers, in one
//! value that is handed from step to step.
//!
//! The session decides; whoever drives it does the work. It names the page to
//! open next; the driver opens it, runs the scripts, and reports what the page
//! gave or that it failed; at the end the session gives the codepoints to keep.

use crate::frontier::{budget, frontier, frontier_links, sole_page, unvisited, urls_view, CrawlState};
use crate::glyph_sets::{
    entries_view, merged, optional_filter, selection, sets_valid, star_covers,
    star_covers_entries, whitelisted, FamilyCodes, GlyphSets,
};
use crate::unicode_range::{to_unicode_range, unicode_range};
use vstd::prelude::*;

verus! {

/// A session: the state of its crawl and the character sets gathered so far.
#[derive(Debug)]
pub struct Session {
    crawl: CrawlState,
    glyphs: GlyphSets,
}

/// What a session ends with.
#[derive(Debug)]
pub struct Selection {
    /// The codepoints to keep, each once.
    pub codes: Vec<u32>,
    /// The same codepoints as a unicode-range.
    pub unicode_range: String,
}

/// The links that a page adds to the frontier after `visited` visits under the
/// limit `limit`: none where links are followed no longer, else those of its
/// anchors that are of its origin, in their normal form, as many as there are
/// visits left.
pub open spec fn followed_links(
    anchors: Seq<Seq<char>>,
    origin: Seq<char>,
    visited: nat,
    limit: usize,
) -> Seq<Seq<char>> {
    match budget(visited, limit) {
        Some(left) => frontier(anchors, origin, left),
        None => Seq::empty(),
    }
}

/// The sets of a session with the whitelist, if there is one, united into the
/// universal family.
pub open spec fn with_whitelist(sets: Map<Seq<char>, Seq<u32>>, whitelist: Option<&str>) -> Map<
    Seq<char>,
    Seq<u32>,
> {
    match whitelist {
        Some(text) => whitelisted(sets, text@),
        None => sets,
    }
}

impl Session {
    /// The character sets gathered so far.
    pub closed spec fn sets(&self) -> Map<Seq<char>, Seq<u32>> {
        self.glyphs@
    }

    /// The pages visited, in the order of the visits.
    pub closed spec fn visited(&self) -> Seq<Seq<char>> {
        self.crawl.visited()
    }

    /// The pages that wait, the one to visit next at the end.
    pub closed spec fn pending(&self) -> Seq<Seq<char>> {
        self.crawl.pending()
    }

    /// The number of visits after which no more links are followed.
    pub closed spec fn limit(&self) -> usize {
        self.crawl.limit()
    }

    /// A session that starts from `seeds` and has gathered nothing.
    pub fn new(seeds: Vec<String>, spider_limit: usize) -> (session: Session)
        ensures
            session.sets() == Map::<Seq<char>, Seq<u32>>::empty(),
            session.visited() == Seq::<Seq<char>>::empty(),
            session.pending() == urls_view(seeds@),
            session.limit() == spider_limit,
    {
        Session { crawl: CrawlState::new(seeds, spider_limit), glyphs: GlyphSets::new() }
    }

    /// The page to open next, which counts as visited from now on; `None` where
    /// the crawl is over.
    pub fn next_url(&mut self) -> (url: Option<String>)
        ensures
            final(self).sets() == old(self).sets(),
            final(self).limit() == old(self).limit(),
            match crate::frontier::next_unvisited(old(self).pending(), old(self).visited()) {
                Some(i) => {
                    &&& 0 <= i < old(self).pending().len()
                    &&& url matches Some(u) && u@ == old(self).pending()[i]
                    &&& final(self).pending() == old(self).pending().take(i)
                    &&& final(self).visited() == old(self).visited().push(old(self).pending()[i])
                },
                None => {
                    &&& url is None
                    &&& final(self).pending() == Seq::<Seq<char>>::empty()
                    &&& final(self).visited() == old(self).visited()
                },
            },
    {
        self.crawl.next_url()
    }

    /// Whether the links of the page just opened are to be looked for.
    pub fn follows_links(&self) -> (follows: bool)
        ensures
            follows == (budget(self.visited().len(), self.limit()) is Some),
    {
        self.crawl.link_budget().is_some()
    }

    /// Takes in what the page just opened gave: its character sets are merged
    /// into those of the session, and of its anchors those worth a visit wait
    /// from now on. As long as every page's universal family holds what the
    /// page's other families hold, so does that of the session.
    pub fn page_scanned(&mut self, glyphs: Vec<FamilyCodes>, anchors: &Vec<String>, origin: &str)
        ensures
            final(self).sets() == merged(old(self).sets(), entries_view(glyphs@)),
            sets_valid(final(self).sets()),
            star_covers(old(self).sets()) && star_covers_entries(entries_view(glyphs@))
                ==> star_covers(final(self).sets()),
            final(self).limit() == old(self).limit(),
            final(self).visited() == old(self).visited(),
            final(self).pending() == old(self).pending() + unvisited(
                followed_links(
                    urls_view(anchors@),
                    origin@,
                    old(self).visited().len(),
                    old(self).limit(),
                ),
                old(self).visited(),
            ),
    {
        self.glyphs.merge(glyphs);
        match self.crawl.link_budget() {
            Some(left) => {
                let links = frontier_links(anchors, origin, left);
                self.crawl.add_links(links);
            },
            None => {
                assert(unvisited(Seq::empty(), old(self).visited()) =~= Seq::empty());
                assert(old(self).pending() + Seq::<Seq<char>>::empty() =~= old(self).pending());
            },
        }
    }

    /// Whether the failure of the page just opened ends the session: it does
    /// where that page is the only one of the session. Else the page is passed
    /// over.
    pub fn failure_is_fatal(&self) -> (fatal: bool)
        ensures
            fatal == sole_page(self.visited(), self.pending()),
    {
        self.crawl.failure_is_fatal()
    }

    /// Ends the session: the whitelist, if there is one, goes into the
    /// universal family; then the codepoints are chosen by the family filter
    /// and written as a unicode-range.
    pub fn finish(self, whitelist: Option<&str>, families: Option<&str>) -> (out: Selection)
        ensures
            selection(
                with_whitelist(self.sets(), whitelist),
                optional_filter(families),
                out.codes@,
            ),
            out.unicode_range@ == unicode_range(out.codes@),
    {
        let mut glyphs = self.glyphs;
        match whitelist {
            Some(text) => {
                glyphs.add_whitelist(text);
            },
            None => {},
        }
        let codes = glyphs.get_for_families(families);
        let unicode_range = to_unicode_range(copy_codes(&codes));
        Selection { codes, unicode_range }
    }
}

/// A copy of `codes`.
fn copy_codes(codes: &Vec<u32>) -> (out: Vec<u32>)
    ensures
        out@ == codes@,
{
    let mut out: Vec<u32> = Vec::new();
    let mut i: usize = 0;
    while i < codes.len()
        invariant
            i <= codes.len(),
            out@ == codes@.take(i as int),
        decreases codes.len() - i,
    {
        out.push(codes[i]);
        i += 1;
    }
    assert(codes@.take(i as int) =~= codes@);
    out
}

} // verus!
