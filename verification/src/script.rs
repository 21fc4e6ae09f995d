use vstd::prelude::*;
use vstd::string::StringExecFns;

use crate::error::Error;
use crate::spiders::Spider;

verus! {

/// One scripted fetch outcome: fetching `url` yields `items` and discovers
/// `urls` when `ok` holds, and fails otherwise.
pub struct ScriptEntry {
    pub url: String,
    pub items: Vec<String>,
    pub urls: Vec<String>,
    pub ok: bool,
}

/// A spider whose whole behaviour is given as data: a finite table of fetch
/// outcomes. A URL outside the table fails to fetch. The sink keeps every
/// processed item, in order, so a run's item delivery can be observed.
pub struct ScriptSpider {
    pub start: Vec<String>,
    pub entries: Vec<ScriptEntry>,
    pub collected: Vec<String>,
}

/// The first table entry for a URL, if any.
pub open spec fn entry_for(entries: Seq<ScriptEntry>, url: Seq<char>) -> Option<ScriptEntry>
    decreases entries.len(),
{
    if entries.len() == 0 {
        None
    } else if entries[0].url@ == url {
        Some(entries[0])
    } else {
        entry_for(entries.drop_first(), url)
    }
}

/// Every URL the table can ever discover, with multiplicity.
pub open spec fn script_outs(entries: Seq<ScriptEntry>) -> Seq<Seq<char>>
    decreases entries.len(),
{
    if entries.len() == 0 {
        Seq::empty()
    } else {
        entries[0].urls.deep_view() + script_outs(entries.drop_first())
    }
}

/// Each URL any table entry discovers lies in the table's output universe.
pub proof fn lemma_script_outs_contains(entries: Seq<ScriptEntry>, k: int, j: int)
    requires
        0 <= k < entries.len(),
        0 <= j < entries[k].urls.deep_view().len(),
    ensures
        script_outs(entries).contains(entries[k].urls.deep_view()[j]),
    decreases k,
{
    if k == 0 {
        assert(script_outs(entries)[j] == entries[0].urls.deep_view()[j]);
    } else {
        lemma_script_outs_contains(entries.drop_first(), k - 1, j);
        let rest = script_outs(entries.drop_first());
        let w = entries[k].urls.deep_view()[j];
        let i = choose|i: int| 0 <= i < rest.len() && rest[i] == w;
        assert(script_outs(entries)[entries[0].urls.deep_view().len() + i] == w);
    }
}

/// Copy a vector of strings, value for value.
pub fn clone_strings(v: &Vec<String>) -> (r: Vec<String>)
    ensures
        r@ == v@,
{
    let mut r: Vec<String> = Vec::new();
    let mut i: usize = 0;
    while i < v.len()
        invariant
            i <= v.len(),
            r@ == v@.take(i as int),
        decreases v.len() - i,
    {
        r.push(v[i].clone());
        proof {
            assert(r@ =~= v@.take(i as int + 1));
        }
        i += 1;
    }
    proof {
        assert(v@.take(v@.len() as int) =~= v@);
    }
    r
}

impl crate::spiders::GetName for ScriptSpider {
    fn get_name() -> String {
        String::from_str("script")
    }
}

impl Spider for ScriptSpider {
    type Item = String;

    open spec fn universe(&self) -> Seq<Seq<char>> {
        script_outs(self.entries@)
    }

    open spec fn spec_start_urls(&self) -> Seq<Seq<char>> {
        self.start.deep_view()
    }

    open spec fn sink_log(&self) -> Seq<String> {
        self.collected@
    }

    open spec fn spec_scrape(&self, url: Seq<char>) -> Option<(Seq<String>, Seq<Seq<char>>)> {
        match entry_for(self.entries@, url) {
            Some(e) => if e.ok {
                Some((e.items@, e.urls.deep_view()))
            } else {
                None
            },
            None => None,
        }
    }

    fn name(&self) -> String {
        String::from_str("script")
    }

    fn start_urls(&self) -> (r: Vec<String>) {
        let r = clone_strings(&self.start);
        proof {
            assert(r.deep_view() =~= self.start.deep_view());
        }
        r
    }

    fn scrape(&self, url: String) -> (r: Result<(Vec<String>, Vec<String>), Error>) {
        let ghost all = self.entries@;
        proof {
            assert(all.skip(0) =~= all);
        }
        let mut i: usize = 0;
        while i < self.entries.len()
            invariant
                i <= self.entries.len(),
                all == self.entries@,
                entry_for(all, url@) == entry_for(all.skip(i as int), url@),
            decreases self.entries.len() - i,
        {
            proof {
                assert(all.skip(i as int)[0] == all[i as int]);
                assert(all.skip(i as int).drop_first() =~= all.skip(i as int + 1));
            }
            if self.entries[i].url == url {
                if self.entries[i].ok {
                    let items = clone_strings(&self.entries[i].items);
                    let urls = clone_strings(&self.entries[i].urls);
                    proof {
                        assert(entry_for(all, url@) == Some(all[i as int]));
                        assert(urls.deep_view() == all[i as int].urls.deep_view());
                        assert forall|j: int|
                            0 <= j < urls.deep_view().len() implies self.universe().contains(
                            #[trigger] urls.deep_view()[j],
                        ) by {
                            lemma_script_outs_contains(all, i as int, j);
                        }
                    }
                    return Ok((items, urls));
                } else {
                    return Err(Error::Fetch(url));
                }
            }
            i += 1;
        }
        proof {
            assert(all.skip(i as int).len() == 0);
        }
        Err(Error::Fetch(url))
    }

    fn process(&mut self, item: String) -> (r: Result<(), Error>) {
        self.collected.push(item);
        proof {
            assert(self.entries == old(self).entries);
            assert forall|u: Seq<char>|
                #[trigger] self.spec_scrape(u) == old(self).spec_scrape(u) by {}
        }
        Ok(())
    }
}

} // verus!
