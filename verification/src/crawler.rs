use vstd::prelude::*;

use crate::engine::{admit_spec, lemma_admit_spec, lemma_scrape_items_push, scrape_items,
    count_unvisited, lemma_count_strict, discovered_by, lemma_provenance_push, provenanced,
    scrape_discovers, EngineState};
use crate::spiders::Spider;

verus! {

/// The crawl engine configuration: worker-pool widths and the fixed
/// inter-request delay (in milliseconds) that throttles each fetch worker.
pub struct Crawler {
    pub crawling_concurrency: usize,
    pub processing_concurrency: usize,
    pub delay_ms: u64,
}

impl Crawler {
    pub fn new(delay_ms: u64, crawling_concurrency: usize, processing_concurrency: usize) -> (c:
        Self)
        ensures
            c.delay_ms == delay_ms,
            c.crawling_concurrency == crawling_concurrency,
            c.processing_concurrency == processing_concurrency,
    {
        Self { crawling_concurrency, processing_concurrency, delay_ms }
    }

    /// Capacity of the frontier and discovery queues, fixed at construction.
    pub fn crawling_queue_capacity(&self) -> (n: usize)
        requires
            self.crawling_concurrency * 400 <= usize::MAX,
        ensures
            n == self.crawling_concurrency * 400,
    {
        self.crawling_concurrency * 400
    }

    /// Capacity of the item queue, fixed at construction.
    pub fn processing_queue_capacity(&self) -> (n: usize)
        requires
            self.processing_concurrency * 10 <= usize::MAX,
        ensures
            n == self.processing_concurrency * 10,
    {
        self.processing_concurrency * 10
    }

    /// Run the engine from explicit seed URLs until it quiesces, then drain
    /// the item queue.
    ///
    /// The contract carries the crate's central guarantees. Deduplication:
    /// the fetch log is duplicate-free and coincides with the visited list,
    /// so each distinct URL reaches `scrape` at most once, and a seed given
    /// twice is fetched once. Quiescence: the state returned has empty URL
    /// queues and nothing in flight, and the loop provably terminates because
    /// the spider's discoverable universe is finite. Draining: every item a
    /// fetch produced was handed to the sink before the run returned, in
    /// fetch order, and lands in the spider's sink log. Closure and
    /// soundness: every URL a successful fetch discovered was itself
    /// fetched, and every fetched URL was a seed or was discovered by an
    /// earlier fetch — with no seeds, nothing is fetched.
    #[verifier::loop_isolation(false)]
    pub fn run_with_seeds<S: Spider>(&self, spider: &mut S, seeds: Vec<String>) -> (st:
        EngineState<S::Item>)
        ensures
            st.wf(),
            st.quiescent(),
            st.items@.len() == 0,
            st.processed@ == st.enqueued@,
            st.fetched@.no_duplicates(),
            forall|u: Seq<char>|
                #[trigger] st.fetched@.contains(u) <==> st.visited.deep_view().contains(u),
            forall|u: Seq<char>|
                #[trigger] seeds.deep_view().contains(u) ==> st.fetched@.contains(u),
            forall|u: Seq<char>|
                #[trigger] st.fetched@.contains(u) ==> (seeds.deep_view().contains(u) || old(
                    spider,
                ).universe().contains(u)),
            st.enqueued@ == scrape_items(*old(spider), st.fetched@),
            final(spider).sink_log() == old(spider).sink_log() + st.processed@,
            provenanced(*old(spider), seeds.deep_view(), st.fetched@),
            forall|u: Seq<char>|
                #[trigger] st.fetched@.contains(u) ==> (match old(spider).spec_scrape(u) {
                    Some(out) => forall|j: int|
                        0 <= j < out.1.len() ==> st.fetched@.contains(#[trigger] out.1[j]),
                    None => true,
                }),
            final(spider).universe() == old(spider).universe(),
            final(spider).spec_start_urls() == old(spider).spec_start_urls(),
            forall|u: Seq<char>|
                #[trigger] final(spider).spec_scrape(u) == old(spider).spec_scrape(u),
    {
        let ghost uni = old(spider).universe();
        let ghost seeds_dv = seeds.deep_view();
        let mut st = EngineState::<S::Item>::new();
        let ghost empty_urls = Seq::<Seq<char>>::empty();
        st.seed(seeds);
        proof {
            lemma_admit_spec(empty_urls, empty_urls, empty_urls, seeds_dv);
            let v1 = admit_spec(empty_urls, empty_urls, seeds_dv).0;
            assert(st.visited.deep_view() == v1);
            assert forall|u: Seq<char>|
                #[trigger] seeds_dv.contains(u) implies st.visited.deep_view().contains(u) by {
                assert(v1.contains(u));
            }
            assert forall|u: Seq<char>| #[trigger] st.visited.deep_view().contains(
                u,
            ) implies seeds_dv.contains(u) || uni.contains(u) by {
                assert(v1.contains(u));
            }
            let f1 = admit_spec(empty_urls, empty_urls, seeds_dv).1;
            assert(st.frontier.deep_view() == f1);
            assert forall|u: Seq<char>| #[trigger] st.frontier.deep_view().contains(
                u,
            ) implies seeds_dv.contains(u) || discovered_by(*old(spider), st.fetched@, u) by {
                assert(f1.contains(u));
            }
            assert(provenanced(*old(spider), seeds_dv, st.fetched@));
            assert(old(spider).sink_log() + st.processed@ =~= spider.sink_log());
            assert(scrape_items(*old(spider), st.fetched@) =~= Seq::<S::Item>::empty());
        }
        while st.discovery.len() > 0 || st.frontier.len() > 0 || st.items.len() > 0
            invariant
                st.wf(),
                st.in_flight == 0,
                spider.universe() == uni,
                forall|u: Seq<char>|
                    #[trigger] spider.spec_scrape(u) == old(spider).spec_scrape(u),
                forall|u: Seq<char>|
                    #[trigger] seeds_dv.contains(u) ==> st.visited.deep_view().contains(u),
                forall|u: Seq<char>|
                    #[trigger] st.visited.deep_view().contains(u) ==> (seeds_dv.contains(u)
                        || uni.contains(u)),
                forall|i: int, j: int|
                    0 <= i < st.discovery.deep_view().len() && 0 <= j
                        < st.discovery.deep_view()[i].len() ==> uni.contains(
                        #[trigger] st.discovery.deep_view()[i][j],
                    ),
                st.enqueued@ == scrape_items(*old(spider), st.fetched@),
                spider.sink_log() == old(spider).sink_log() + st.processed@,
                spider.spec_start_urls() == old(spider).spec_start_urls(),
                provenanced(*old(spider), seeds_dv, st.fetched@),
                forall|u: Seq<char>|
                    #[trigger] st.frontier.deep_view().contains(u) ==> (seeds_dv.contains(u)
                        || discovered_by(*old(spider), st.fetched@, u)),
                forall|i: int, j: int|
                    0 <= i < st.discovery.deep_view().len() && 0 <= j
                        < st.discovery.deep_view()[i].len() ==> discovered_by(
                        *old(spider),
                        st.fetched@,
                        #[trigger] st.discovery.deep_view()[i][j],
                    ),
                forall|u: Seq<char>|
                    #[trigger] st.fetched@.contains(u) ==> (match old(spider).spec_scrape(u) {
                        Some(out) => forall|j: int|
                            0 <= j < out.1.len() ==> (st.visited.deep_view().contains(
                                #[trigger] out.1[j],
                            ) || in_discovery(st.discovery.deep_view(), out.1[j])),
                        None => true,
                    }),
            decreases
                    count_unvisited(uni, st.visited.deep_view()),
                    st.frontier@.len(),
                    st.discovery@.len(),
                    st.items@.len(),
        {
            let ghost prev = st;
            let ghost vb = st.visited.deep_view();
            let ghost fb = st.frontier.deep_view();
            let ghost db = st.discovery.deep_view();
            let ghost feb = st.fetched@;
            let ghost enqb = st.enqueued@;
            proof {
                assert forall|i: int, j: int|
                    0 <= i < db.len() && 0 <= j < db[i].len() implies uni.contains(
                    #[trigger] db[i][j],
                ) by {
                    assert(uni.contains(st.discovery.deep_view()[i][j]));
                }
                assert forall|u: Seq<char>| #[trigger] feb.contains(u) implies (match old(
                    spider,
                ).spec_scrape(u) {
                    Some(out) => forall|j: int|
                        0 <= j < out.1.len() ==> (vb.contains(#[trigger] out.1[j]) || in_discovery(
                            db,
                            out.1[j],
                        )),
                    None => true,
                }) by {
                    assert(st.fetched@.contains(u));
                    match old(spider).spec_scrape(u) {
                        Some(out) => {
                            assert forall|j: int|
                                0 <= j < out.1.len() implies (vb.contains(#[trigger] out.1[j])
                                || in_discovery(db, out.1[j])) by {
                                assert(st.visited.deep_view().contains(out.1[j]) || in_discovery(
                                    st.discovery.deep_view(),
                                    out.1[j],
                                ));
                            }
                        },
                        None => {},
                    }
                }
                assert(enqb == scrape_items(*old(spider), feb));
                assert forall|u: Seq<char>| #[trigger] fb.contains(u) implies (seeds_dv.contains(u)
                    || discovered_by(*old(spider), feb, u)) by {
                    assert(st.frontier.deep_view().contains(u));
                }
                assert forall|i: int, j: int|
                    0 <= i < db.len() && 0 <= j < db[i].len() implies discovered_by(
                    *old(spider),
                    feb,
                    #[trigger] db[i][j],
                ) by {
                    assert(discovered_by(*old(spider), feb, st.discovery.deep_view()[i][j]));
                }
                assert(provenanced(*old(spider), seeds_dv, feb));
            }
            while st.items.len() > 0
                invariant
                    st.wf(),
                    spider.universe() == uni,
                    spider.spec_start_urls() == old(spider).spec_start_urls(),
                    spider.sink_log() == old(spider).sink_log() + st.processed@,
                    forall|u: Seq<char>|
                        #[trigger] spider.spec_scrape(u) == old(spider).spec_scrape(u),
                    st.visited == prev.visited,
                    st.frontier == prev.frontier,
                    st.discovery == prev.discovery,
                    st.in_flight == prev.in_flight,
                    st.fetched == prev.fetched,
                    st.enqueued == prev.enqueued,
                decreases st.items@.len(),
            {
                match st.next_item() {
                    Some(item) => {
                        let ghost sink_pre = spider.sink_log();
                        let ghost processed_now = st.processed@;
                        let ghost item_g = item;
                        let _ = spider.process(item);
                        proof {
                            assert(spider.sink_log() == sink_pre.push(item_g));
                            assert(sink_pre.push(item_g) =~= old(spider).sink_log()
                                + processed_now);
                        }
                    },
                    None => {},
                }
            }
            proof {
                assert(st.visited.deep_view() == vb);
                assert(st.frontier.deep_view() == fb);
                assert(st.discovery.deep_view() == db);
                assert(st.fetched@ == feb);
                assert(st.enqueued@ == enqb);
            }
            match st.poll_discovery() {
                Some(batch) => {
                    let ghost bdv = batch.deep_view();
                    proof {
                        assert(bdv == db[0]);
                        assert forall|j: int| 0 <= j < bdv.len() implies uni.contains(
                            #[trigger] bdv[j],
                        ) by {
                            assert(uni.contains(db[0][j]));
                        }
                    }
                    st.admit_urls(batch);
                    proof {
                        lemma_admit_spec(vb, fb, feb, bdv);
                        assert(st.fetched@ == feb);
                        let va2 = admit_spec(vb, fb, bdv).0;
                        let fa2 = admit_spec(vb, fb, bdv).1;
                        assert(st.visited.deep_view() == va2);
                        assert(st.frontier.deep_view() == fa2);
                        let d2 = st.discovery.deep_view();
                        assert forall|u: Seq<char>| #[trigger] seeds_dv.contains(
                            u,
                        ) implies st.visited.deep_view().contains(u) by {
                            assert(vb.contains(u));
                            assert(va2.contains(u));
                        }
                        assert forall|u: Seq<char>| #[trigger] st.visited.deep_view().contains(
                            u,
                        ) implies seeds_dv.contains(u) || uni.contains(u) by {
                            assert(va2.contains(u));
                            if !vb.contains(u) {
                                assert(bdv.contains(u));
                                let j = choose|j: int| 0 <= j < bdv.len() && bdv[j] == u;
                                assert(uni.contains(bdv[j]));
                            }
                        }
                        assert forall|i: int, j: int|
                            0 <= i < d2.len() && 0 <= j < d2[i].len() implies uni.contains(
                            #[trigger] d2[i][j],
                        ) by {
                            assert(d2[i] == db[i + 1]);
                            assert(uni.contains(db[i + 1][j]));
                        }
                        assert forall|u: Seq<char>| #[trigger] st.fetched@.contains(u) implies (
                        match old(spider).spec_scrape(u) {
                            Some(out) => forall|j: int|
                                0 <= j < out.1.len() ==> (st.visited.deep_view().contains(
                                    #[trigger] out.1[j],
                                ) || in_discovery(d2, out.1[j])),
                            None => true,
                        }) by {
                            assert(feb.contains(u));
                            match old(spider).spec_scrape(u) {
                                Some(out) => {
                                    assert forall|j: int|
                                        0 <= j < out.1.len() implies (st.visited.deep_view(
                                        ).contains(#[trigger] out.1[j]) || in_discovery(
                                        d2,
                                        out.1[j],
                                    )) by {
                                        let w = out.1[j];
                                        assert(vb.contains(w) || in_discovery(db, w));
                                        if vb.contains(w) {
                                            assert(va2.contains(w));
                                        } else {
                                            let i = choose|i: int|
                                                0 <= i < db.len() && db[i].contains(w);
                                            if i == 0 {
                                                assert(bdv.contains(w));
                                                assert(va2.contains(w));
                                            } else {
                                                assert(d2[i - 1] == db[i]);
                                                assert(d2[i - 1].contains(w));
                                                assert(in_discovery(d2, w));
                                            }
                                        }
                                    }
                                },
                                None => {},
                            }
                        }
                        assert(provenanced(*old(spider), seeds_dv, st.fetched@));
                        assert forall|u: Seq<char>| #[trigger] st.frontier.deep_view().contains(
                            u,
                        ) implies (seeds_dv.contains(u) || discovered_by(
                            *old(spider),
                            st.fetched@,
                            u,
                        )) by {
                            assert(fa2.contains(u));
                            if !fb.contains(u) {
                                assert(bdv.contains(u));
                                let j = choose|j: int| 0 <= j < bdv.len() && bdv[j] == u;
                                assert(discovered_by(*old(spider), feb, db[0][j]));
                            }
                        }
                        assert forall|i: int, j: int|
                            0 <= i < d2.len() && 0 <= j < d2[i].len() implies discovered_by(
                            *old(spider),
                            st.fetched@,
                            #[trigger] d2[i][j],
                        ) by {
                            assert(d2[i] == db[i + 1]);
                            assert(discovered_by(*old(spider), feb, db[i + 1][j]));
                        }
                        if forall|u: Seq<char>| #[trigger] bdv.contains(u) ==> vb.contains(u) {
                            assert(st.visited.deep_view() == vb);
                            assert(st.frontier.deep_view() == fb);
                            assert(count_unvisited(uni, st.visited.deep_view())
                                == count_unvisited(uni, prev.visited.deep_view()));
                            assert(st.frontier@.len() == prev.frontier@.len());
                            assert(st.discovery@.len() < prev.discovery@.len());
                        } else {
                            let w = choose|u: Seq<char>| bdv.contains(u) && !vb.contains(u);
                            let jj = choose|j: int| 0 <= j < bdv.len() && bdv[j] == w;
                            assert(uni.contains(bdv[jj]));
                            assert forall|u: Seq<char>| #[trigger] vb.contains(
                                u,
                            ) implies va2.contains(u) by {}
                            assert(va2.contains(w));
                            lemma_count_strict(uni, vb, va2, w);
                            assert(count_unvisited(uni, st.visited.deep_view())
                                < count_unvisited(uni, prev.visited.deep_view()));
                        }
                    }
                },
                None => {
                    match st.next_url() {
                        Some(url) => {
                            let ghost u0 = url@;
                            let outcome = spider.scrape(url);
                            let ghost oc = outcome;
                            st.finish_fetch(outcome);
                            proof {
                                assert(st.fetched@ == feb.push(u0));
                                assert(spider.spec_scrape(u0) == old(spider).spec_scrape(u0));
                                lemma_scrape_items_push(*old(spider), feb, u0);
                                let d2 = st.discovery.deep_view();
                                assert(st.visited.deep_view() == vb);
                                match oc {
                                    Ok(out) => {
                                        assert(old(spider).spec_scrape(u0) == Some((
                                            out.0@,
                                            out.1.deep_view(),
                                        )));
                                        assert(st.enqueued@ == enqb + out.0@);
                                        assert(st.enqueued@ == scrape_items(
                                            *old(spider),
                                            st.fetched@,
                                        ));
                                        assert(d2 == db.push(out.1.deep_view()));
                                    },
                                    Err(_) => {
                                        assert(old(spider).spec_scrape(u0) is None);
                                        assert(scrape_items(*old(spider), feb)
                                            + Seq::<S::Item>::empty() =~= scrape_items(
                                            *old(spider),
                                            feb,
                                        ));
                                        assert(st.enqueued@ == scrape_items(
                                            *old(spider),
                                            st.fetched@,
                                        ));
                                        assert(d2 == db.push(Seq::<Seq<char>>::empty()));
                                    },
                                }
                                assert forall|i: int, j: int|
                                    0 <= i < d2.len() && 0 <= j < d2[i].len() implies uni.contains(
                                    #[trigger] d2[i][j],
                                ) by {
                                    if i < db.len() {
                                        assert(d2[i] == db[i]);
                                        assert(uni.contains(db[i][j]));
                                    } else {
                                        match oc {
                                            Ok(out) => {
                                                assert(d2[i] == out.1.deep_view());
                                                assert(spider.universe().contains(
                                                    out.1.deep_view()[j],
                                                ));
                                            },
                                            Err(_) => {},
                                        }
                                    }
                                }
                                assert forall|u: Seq<char>| #[trigger] st.fetched@.contains(
                                    u,
                                ) implies (match old(spider).spec_scrape(u) {
                                    Some(out) => forall|j: int|
                                        0 <= j < out.1.len() ==> (st.visited.deep_view().contains(
                                            #[trigger] out.1[j],
                                        ) || in_discovery(d2, out.1[j])),
                                    None => true,
                                }) by {
                                    match old(spider).spec_scrape(u) {
                                        Some(out) => {
                                            assert forall|j: int|
                                                0 <= j < out.1.len() implies (st.visited.deep_view(
                                                ).contains(#[trigger] out.1[j]) || in_discovery(
                                                d2,
                                                out.1[j],
                                            )) by {
                                                let w = out.1[j];
                                                if u == u0 {
                                                    match oc {
                                                        Ok(o2) => {
                                                            assert(out.1 == o2.1.deep_view());
                                                            assert(d2[db.len() as int]
                                                                == o2.1.deep_view());
                                                            assert(d2[db.len() as int][j] == w);
                                                            assert(d2[db.len() as int].contains(w));
                                                            assert(in_discovery(d2, w));
                                                        },
                                                        Err(_) => {},
                                                    }
                                                } else {
                                                    let i = choose|i: int|
                                                        0 <= i < st.fetched@.len()
                                                            && st.fetched@[i] == u;
                                                    if i == feb.len() as int {
                                                        assert(st.fetched@[i] == u0);
                                                    }
                                                    assert(i < feb.len());
                                                    assert(feb[i] == u);
                                                    assert(feb.contains(u));
                                                    assert(vb.contains(w) || in_discovery(db, w));
                                                    if vb.contains(w) {
                                                        assert(st.visited.deep_view().contains(w));
                                                    } else {
                                                        let k = choose|k: int|
                                                            0 <= k < db.len() && db[k].contains(w);
                                                        assert(d2[k] == db[k]);
                                                        assert(d2[k].contains(w));
                                                        assert(in_discovery(d2, w));
                                                    }
                                                }
                                            }
                                        },
                                        None => {},
                                    }
                                }
                                assert(st.frontier.deep_view() == fb.drop_first());
                                assert(fb.contains(fb[0]));
                                assert(u0 == fb[0]);
                                lemma_provenance_push(*old(spider), seeds_dv, feb, u0);
                                assert(provenanced(*old(spider), seeds_dv, st.fetched@));
                                assert forall|u: Seq<char>|
                                    #[trigger] st.frontier.deep_view().contains(u) implies (
                                seeds_dv.contains(u) || discovered_by(
                                    *old(spider),
                                    st.fetched@,
                                    u,
                                )) by {
                                    let i = choose|i: int|
                                        0 <= i < st.frontier.deep_view().len()
                                            && st.frontier.deep_view()[i] == u;
                                    assert(fb[i + 1] == u);
                                    assert(fb.contains(u));
                                    if !seeds_dv.contains(u) {
                                        let k = choose|k: int|
                                            0 <= k < feb.len() && scrape_discovers(
                                                *old(spider),
                                                feb[k],
                                                u,
                                            );
                                        assert(st.fetched@[k] == feb[k]);
                                        assert(scrape_discovers(*old(spider), st.fetched@[k], u));
                                    }
                                }
                                assert forall|i: int, j: int|
                                    0 <= i < d2.len() && 0 <= j
                                        < d2[i].len() implies discovered_by(
                                    *old(spider),
                                    st.fetched@,
                                    #[trigger] d2[i][j],
                                ) by {
                                    if i < db.len() {
                                        assert(d2[i] == db[i]);
                                        assert(discovered_by(*old(spider), feb, db[i][j]));
                                        let k = choose|k: int|
                                            0 <= k < feb.len() && scrape_discovers(
                                                *old(spider),
                                                feb[k],
                                                db[i][j],
                                            );
                                        assert(st.fetched@[k] == feb[k]);
                                        assert(scrape_discovers(
                                            *old(spider),
                                            st.fetched@[k],
                                            d2[i][j],
                                        ));
                                    } else {
                                        match oc {
                                            Ok(o2) => {
                                                assert(d2[i] == o2.1.deep_view());
                                                assert(scrape_discovers(
                                                    *old(spider),
                                                    u0,
                                                    d2[i][j],
                                                ));
                                                assert(st.fetched@[feb.len() as int] == u0);
                                            },
                                            Err(_) => {},
                                        }
                                    }
                                }
                                assert(count_unvisited(uni, st.visited.deep_view())
                                    == count_unvisited(uni, prev.visited.deep_view()));
                                assert(st.frontier.deep_view() == fb.drop_first());
                                assert(fb.len() > 0);
                                assert(st.frontier@.len() == st.frontier.deep_view().len());
                                assert(prev.frontier@.len() == fb.len());
                                assert(st.frontier@.len() < prev.frontier@.len());
                            }
                        },
                        None => {
                            proof {
                                assert(st.discovery@.len() == 0);
                                assert(st.frontier@.len() == 0);
                                assert(st.items@.len() == 0);
                                assert(count_unvisited(uni, st.visited.deep_view())
                                    == count_unvisited(uni, prev.visited.deep_view()));
                                assert(prev.items@.len() > 0);
                            }
                        },
                    }
                },
            }
        }
        proof {
            assert(st.items@ =~= Seq::<S::Item>::empty());
            assert(st.enqueued@ =~= st.processed@);
            assert forall|u: Seq<char>| #[trigger] st.visited.deep_view().contains(
                u,
            ) implies st.fetched@.contains(u) by {
                assert(!st.frontier.deep_view().contains(u));
            }
            assert forall|u: Seq<char>| #[trigger] st.fetched@.contains(u) implies (match old(
                spider,
            ).spec_scrape(u) {
                Some(out) => forall|j: int|
                    0 <= j < out.1.len() ==> st.fetched@.contains(#[trigger] out.1[j]),
                None => true,
            }) by {
                match old(spider).spec_scrape(u) {
                    Some(out) => {
                        assert forall|j: int| 0 <= j < out.1.len() implies st.fetched@.contains(
                            #[trigger] out.1[j],
                        ) by {
                            let w = out.1[j];
                            assert(!in_discovery(st.discovery.deep_view(), w));
                        }
                    },
                    None => {},
                }
            }
        }
        st
    }

    /// Run the engine on a spider: seed from its start URLs, crawl to
    /// quiescence, drain the item queue, and return the final state.
    ///
    /// The seed clauses speak of the spider's own `spec_start_urls`, so a
    /// run on a spider with seeds cannot return an empty state: every start
    /// URL is fetched, only seeds and provenanced discoveries are fetched,
    /// and every dequeued item reaches the spider's sink log.
    pub fn run<S: Spider>(&self, spider: &mut S) -> (st: EngineState<S::Item>)
        ensures
            st.wf(),
            st.quiescent(),
            st.items@.len() == 0,
            st.processed@ == st.enqueued@,
            st.fetched@.no_duplicates(),
            forall|u: Seq<char>|
                #[trigger] st.fetched@.contains(u) <==> st.visited.deep_view().contains(u),
            forall|u: Seq<char>|
                #[trigger] old(spider).spec_start_urls().contains(u) ==> st.fetched@.contains(u),
            forall|u: Seq<char>|
                #[trigger] st.fetched@.contains(u) ==> (old(spider).spec_start_urls().contains(u)
                    || old(spider).universe().contains(u)),
            st.enqueued@ == scrape_items(*old(spider), st.fetched@),
            final(spider).sink_log() == old(spider).sink_log() + st.processed@,
            provenanced(*old(spider), old(spider).spec_start_urls(), st.fetched@),
            forall|u: Seq<char>|
                #[trigger] st.fetched@.contains(u) ==> (match old(spider).spec_scrape(u) {
                    Some(out) => forall|j: int|
                        0 <= j < out.1.len() ==> st.fetched@.contains(#[trigger] out.1[j]),
                    None => true,
                }),
            final(spider).universe() == old(spider).universe(),
            final(spider).spec_start_urls() == old(spider).spec_start_urls(),
            forall|u: Seq<char>|
                #[trigger] final(spider).spec_scrape(u) == old(spider).spec_scrape(u),
    {
        let seeds = spider.start_urls();
        let ghost seeds_dv = seeds.deep_view();
        let st = self.run_with_seeds(spider, seeds);
        proof {
            assert(seeds_dv == old(spider).spec_start_urls());
            assert(provenanced(*old(spider), old(spider).spec_start_urls(), st.fetched@));
        }
        st
    }
}

/// Whether any buffered discovery batch still holds the given URL.
pub open spec fn in_discovery(d: Seq<Seq<Seq<char>>>, u: Seq<char>) -> bool {
    exists|i: int| 0 <= i < d.len() && d[i].contains(u)
}

} // verus!
