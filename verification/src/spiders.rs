use vstd::prelude::*;
use vstd::string::StringExecFns;

use crate::error::Error;

verus! {

/// Base of every URL the bundled spider emits.
pub const CVE_DETAILS_COM: &'static str = "http://www.cvedetails.com";

/// The site-specific fetch/parse and item-sink capability consumed by the
/// engine.
///
/// `scrape` is modelled by two spec functions: `universe` lists every URL the
/// spider can ever discover (a finite sequence), and `spec_scrape` gives the
/// outcome of fetching one URL (`None` meaning the fetch fails). A spider may
/// carry mutable sink state in `process`, but processing an item must not
/// change what the spider would fetch: this is what lets the engine prove
/// that a run visits each URL at most once and still terminates.
pub trait Spider {
    type Item;

    /// Every URL this spider can ever discover. Finiteness of this sequence
    /// is what makes a crawl provably terminating.
    spec fn universe(&self) -> Seq<Seq<char>>;

    /// The seed URLs of one run, as the contracts see them.
    spec fn spec_start_urls(&self) -> Seq<Seq<char>>;

    /// The outcome of fetching one URL: the items and follow-up links it
    /// yields, or `None` when the fetch fails.
    spec fn spec_scrape(&self, url: Seq<char>) -> Option<(Seq<Self::Item>, Seq<Seq<char>>)>;

    /// Every item handed to the sink so far, in order. This is what lets an
    /// engine contract say that dequeued items really reach the sink.
    spec fn sink_log(&self) -> Seq<Self::Item>;

    /// Stable identifier used for selection and listing.
    fn name(&self) -> String;

    /// The seed URLs of one run; may be empty.
    fn start_urls(&self) -> (r: Vec<String>)
        ensures
            r.deep_view() == self.spec_start_urls(),
    ;

    /// Fetch one URL and parse it into items and discovered URLs.
    fn scrape(&self, url: String) -> (r: Result<(Vec<Self::Item>, Vec<String>), Error>)
        ensures
            match r {
                Ok(out) => {
                    &&& self.spec_scrape(url@) == Some((out.0@, out.1.deep_view()))
                    &&& forall|i: int|
                        0 <= i < out.1.deep_view().len() ==> self.universe().contains(
                            #[trigger] out.1.deep_view()[i],
                        )
                },
                Err(_) => self.spec_scrape(url@) is None,
            },
    ;

    /// Consume one extracted item: it is appended to the sink log. Sink
    /// state may change, but the fetch behaviour and the seeds of the spider
    /// must not.
    fn process(&mut self, item: Self::Item) -> (r: Result<(), Error>)
        ensures
            final(self).sink_log() == old(self).sink_log().push(item),
            final(self).universe() == old(self).universe(),
            final(self).spec_start_urls() == old(self).spec_start_urls(),
            forall|u: Seq<char>| #[trigger] final(self).spec_scrape(u) == old(self).spec_scrape(
                u,
            ),
    ;
}

/// Static access to a spider's stable identifier.
pub trait GetName: Spider {
    fn get_name() -> String;
}

/// The identifiers of every spider this crate knows about.
pub fn get_spider_names() -> (r: Vec<String>)
    ensures
        r.deep_view() =~= seq!["CveDetails"@],
{
    let mut names: Vec<String> = Vec::new();
    names.push(String::from_str("CveDetails"));
    names
}

/// Resolve a user-supplied spider name; an unknown name is a configuration
/// error that prevents a run from starting.
pub fn resolve_spider_name(name: &str) -> (r: Result<(), Error>)
    ensures
        r is Ok <==> name@ == "CveDetails"@,
        r matches Err(e) ==> (e matches Error::InvalidSpiderName(s) && s@ == name@),
{
    let owned = name.to_owned();
    if owned == String::from_str("CveDetails") {
        Ok(())
    } else {
        Err(Error::InvalidSpiderName(owned))
    }
}

/// Turn a site-relative link segment into an absolute URL below
/// `CVE_DETAILS_COM`.
pub fn normalise_link(segment: &str) -> (r: String)
    ensures
        r@ =~= CVE_DETAILS_COM@ + seq!['/'] + segment@,
{
    let mut out = String::from_str(CVE_DETAILS_COM);
    out.append("/");
    out.append(segment);
    proof {
        reveal_strlit("/");
        assert("/"@ =~= seq!['/']);
    }
    out
}

} // verus!
