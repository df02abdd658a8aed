//! The facade: owns the query tree, the parser state and the training
//! counter, and runs one record through index building and extraction.
use vstd::prelude::*;

use crate::error::Error;
use crate::error::ErrorKind;
use crate::index_builder::lemma_wf_for_unique;
use crate::index_builder::rec_brace_stack;
use crate::index_builder::IndexBuilder;
use crate::query::QueryNode;
use crate::parser::basic_spec;
use crate::parser::lift_results;
use crate::parser::lift_stats;
use crate::parser::rows;
use crate::parser::speculative_spec;
use crate::parser::ExtractState;
use crate::parser::Parser;
use crate::query::sum_lens;
use crate::query::valid_query;
use crate::query::QueryTree;

verus! {

/// A fresh, empty result vector.
pub open spec fn none_results(n: int) -> Seq<Option<Seq<u8>>> {
    Seq::new(n as nat, |r: int| Option::<Seq<u8>>::None)
}


/// Whether extraction over a built index fails for this record: some field
/// lookup found fewer than two quotes, or some value range emptied.
pub open spec fn extraction_failed(
    ib: IndexBuilder,
    rec: Seq<u8>,
    root: QueryNode,
    trained: bool,
    stats0: Seq<Seq<usize>>,
    npaths: int,
) -> bool {
    let ix = rows(ib.index@);
    let bq = ib.b_quote@;
    let fresh = none_results(npaths);
    let endp = rec.len() - 1;
    if trained {
        let sout = speculative_spec(rec, ix, bq, root, 0, endp, 0, stats0, fresh);
        sout.failed || (!sout.matched && basic_spec(
            rec,
            ix,
            bq,
            root,
            0,
            endp,
            0,
            false,
            ExtractState { failed: false, results: sout.results, stats: stats0 },
        ).failed)
    } else {
        basic_spec(
            rec,
            ix,
            bq,
            root,
            0,
            endp,
            0,
            true,
            ExtractState { failed: false, results: fresh, stats: stats0 },
        ).failed
    }
}

/// When a parse call fails, read off the record alone: an empty record, a
/// structural close brace with no open, or a failing extraction — the built
/// index is a function of the record (`lemma_wf_for_unique`), so the
/// existential names one value.
pub open spec fn parse_fails(
    rec: Seq<u8>,
    root: QueryNode,
    max_level: int,
    trained: bool,
    stats0: Seq<Seq<usize>>,
    npaths: int,
) -> bool {
    ||| rec.len() == 0
    ||| rec_brace_stack(rec, rec.len() as int) is None
    ||| (max_level > 0 && exists|ib: IndexBuilder|
        (#[trigger] ib.wf_for(rec)) && ib.max_depth as int == max_level && extraction_failed(
            ib,
            rec,
            root,
            trained,
            stats0,
            npaths,
        ))
}

/// JSON parser which picks up queried values directly, without tokenizing.
pub struct Pikkr {
    /// The query tree built at construction.
    pub queries: QueryTree,
    /// The extractor state: bitmaps, statistics, scratch.
    pub parser: Parser,
    /// After this many records, speculation starts.
    pub train_num: usize,
    /// How many records have trained so far.
    pub trained_num: usize,
    /// Whether speculation is on; once on, it stays on.
    pub trained: bool,
}

impl Pikkr {
    /// What construction establishes and every parse preserves.
    pub open spec fn wf(self) -> bool {
        &&& self.queries.wf()
        &&& self.parser.stats@.len() == self.queries.num_nodes
        &&& self.parser.colon_positions@.len() == self.queries.max_level
        &&& self.parser.index_builder.max_depth == self.queries.max_level
    }

    /// Builds a parser for the given query paths and training threshold;
    /// fails exactly when a path breaks the grammar.
    pub fn new(query_strs: &Vec<Vec<u8>>, train_num: usize) -> (res: Result<Pikkr, Error>)
        requires
            sum_lens(query_strs@) <= usize::MAX,
        ensures
            res is Ok <==> (forall|k: int|
                0 <= k < query_strs@.len() ==> valid_query(#[trigger] query_strs@[k]@)),
            res matches Err(e) ==> e.spec_kind() == ErrorKind::InvalidQuery,
            res matches Ok(p) ==> {
                &&& p.wf()
                &&& p.queries.paths@.len() == query_strs@.len()
                &&& p.train_num == train_num
                &&& p.trained_num == 0
                &&& !p.trained
                &&& forall|u: int|
                    0 <= u < p.parser.stats@.len() ==> (#[trigger] p.parser.stats@[u])@.len() == 0
                &&& forall|kk: int|
                    0 <= kk < query_strs@.len() ==> (#[trigger] crate::query::path_node(
                        p.queries.root_node,
                        query_strs@[kk]@,
                        2,
                    )) is Some && crate::query::path_node(
                        p.queries.root_node,
                        query_strs@[kk]@,
                        2,
                    ).unwrap().path_id is Some
                &&& crate::query::node_view(p.queries.root_node) == crate::query::tree_view_spec(
                    query_strs@,
                    query_strs@.len() as int,
                ).0
                &&& p.queries.num_nodes as int == crate::query::tree_view_spec(
                    query_strs@,
                    query_strs@.len() as int,
                ).1
                &&& p.queries.max_level as int == crate::query::tree_view_spec(
                    query_strs@,
                    query_strs@.len() as int,
                ).2
                &&& forall|j: int|
                    0 <= j < query_strs@.len() ==> #[trigger] p.queries.paths@[j]@
                        == query_strs@[j]@
            },
    {
        let queries = match QueryTree::new(query_strs) {
            Ok(q) => q,
            Err(e) => {
                return Err(e);
            },
        };
        let parser = Parser::new(&queries);
        Ok(Pikkr { queries, parser, train_num, trained_num: 0, trained: false })
    }

    /// Parses one record: builds the structural index, then extracts the
    /// queried values, speculatively once trained, with the basic scan as
    /// the training mode and the fallback. Returns one entry per query path,
    /// each a byte slice of the record or absent.
    pub fn parse<'b>(&mut self, rec: &'b [u8]) -> (res: Result<Vec<Option<&'b [u8]>>, Error>)
        requires
            old(self).wf(),
            rec@.len() <= usize::MAX - 64,
        ensures
            final(self).wf(),
            final(self).queries == old(self).queries,
            final(self).train_num == old(self).train_num,
            rec@.len() == 0 ==> res is Err,
            res is Err <==> parse_fails(
                rec@,
                old(self).queries.root_node,
                old(self).queries.max_level as int,
                old(self).trained,
                lift_stats(old(self).parser.stats@),
                old(self).queries.paths@.len() as int,
            ),
            res matches Err(e) ==> e.spec_kind() == ErrorKind::InvalidRecord,
            res matches Ok(v) ==> v@.len() == old(self).queries.paths@.len(),
            // statistics only grow; what a failed call filed before failing remains
            forall|u: int|
                0 <= u < old(self).parser.stats@.len()
                    ==> (#[trigger] old(self).parser.stats@[u])@.is_prefix_of(
                    final(self).parser.stats@[u]@,
                ),
            // the training state machine
            old(self).trained ==> final(self).trained && final(self).trained_num == old(
                self,
            ).trained_num,
            res is Err ==> final(self).trained == old(self).trained && final(self).trained_num
                == old(self).trained_num,
            (!old(self).trained && res is Ok) ==> final(self).trained_num as int == (if old(
                self,
            ).trained_num < usize::MAX {
                old(self).trained_num as int + 1
            } else {
                old(self).trained_num as int
            }) && (final(self).trained <==> final(self).trained_num >= old(self).train_num),
            // what a successful parse returns, over the rebuilt index
            ({
                let ib = final(self).parser.index_builder;
                let ix = rows(ib.index@);
                let bq = ib.b_quote@;
                let root = old(self).queries.root_node;
                let stats0 = lift_stats(old(self).parser.stats@);
                let fresh = none_results(old(self).queries.paths@.len() as int);
                let endp = rec@.len() - 1;
                res matches Ok(v) ==> {
                    &&& (old(self).queries.max_level > 0 ==> ib.wf_for(rec@))
                    &&& (old(self).queries.max_level == 0 ==> lift_results(v@) == fresh)
                    &&& (old(self).queries.max_level > 0 ==> (if old(self).trained {
                        let sout = speculative_spec(rec@, ix, bq, root, 0, endp, 0, stats0, fresh);
                        &&& !sout.failed
                        &&& lift_stats(final(self).parser.stats@) == stats0
                        &&& (if sout.matched {
                            lift_results(v@) == sout.results
                        } else {
                            let bout = basic_spec(
                                rec@,
                                ix,
                                bq,
                                root,
                                0,
                                endp,
                                0,
                                false,
                                ExtractState { failed: false, results: sout.results, stats: stats0 },
                            );
                            &&& !bout.failed
                            &&& lift_results(v@) == bout.results
                        })
                    } else {
                        let bout = basic_spec(
                            rec@,
                            ix,
                            bq,
                            root,
                            0,
                            endp,
                            0,
                            true,
                            ExtractState { failed: false, results: fresh, stats: stats0 },
                        );
                        &&& !bout.failed
                        &&& lift_results(v@) == bout.results
                        &&& lift_stats(final(self).parser.stats@) == bout.stats
                    }))
                }
            }),
    {
        let ghost root0 = self.queries.root_node;
        let ghost stats0 = lift_stats(self.parser.stats@);
        let ghost npaths0 = self.queries.paths@.len() as int;
        let ghost mlv = self.queries.max_level as int;
        let ghost trained0 = self.trained;
        let n = rec.len();
        if n == 0 {
            return Err(Error::of(ErrorKind::InvalidRecord));
        }
        match self.parser.index_builder.build_structural_indices(rec) {
            Ok(()) => {},
            Err(e) => {
                proof {
                    assert(rec_brace_stack(rec@, rec@.len() as int) is None);
                }
                return Err(e);
            },
        }
        let num_paths = self.queries.num_paths();
        let mut results: Vec<Option<&'b [u8]>> = Vec::new();
        let mut r: usize = 0;
        while r < num_paths
            invariant
                r <= num_paths,
                results@.len() == r,
                forall|m: int| 0 <= m < r ==> #[trigger] results@[m] is None,
            decreases num_paths - r,
        {
            results.push(None);
            r += 1;
        }
        proof {
            assert(lift_results(results@) =~= none_results(num_paths as int));
        }
        if self.queries.max_level() == 0 {
            proof {
                assert(!parse_fails(rec@, root0, mlv, trained0, stats0, npaths0));
            }
            if !self.trained {
                self.trained_num = if self.trained_num < usize::MAX {
                    self.trained_num + 1
                } else {
                    self.trained_num
                };
                if self.trained_num >= self.train_num {
                    self.trained = true;
                }
            }
            return Ok(results);
        }
        proof {
            assert(self.parser.parse_inv(rec@, n as int - 1, 0));
        }
        if self.trained {
            let found = match self.parser.speculative_parse(
                rec,
                self.queries.as_node(),
                0,
                n - 1,
                0,
                &mut results,
            ) {
                Ok(b) => b,
                Err(e) => {
                    proof {
                        let ib = self.parser.index_builder;
                        assert(ib.wf_for(rec@) && ib.max_depth as int == mlv && extraction_failed(
                            ib,
                            rec@,
                            root0,
                            trained0,
                            stats0,
                            npaths0,
                        ));
                        assert(parse_fails(rec@, root0, mlv, trained0, stats0, npaths0));
                    }
                    return Err(e);
                },
            };
            let ghost res_before = lift_results(results@);
            if !found {
                match self.parser.basic_parse(
                    rec,
                    self.queries.as_node(),
                    0,
                    n - 1,
                    0,
                    false,
                    &mut results,
                ) {
                    Ok(()) => {},
                    Err(e) => {
                        proof {
                            let ib = self.parser.index_builder;
                            assert(ib.wf_for(rec@) && ib.max_depth as int == mlv
                                && extraction_failed(ib, rec@, root0, trained0, stats0, npaths0));
                            assert(parse_fails(rec@, root0, mlv, trained0, stats0, npaths0));
                        }
                        return Err(e);
                    },
                }
                proof {
                    crate::parser::lemma_basic_stats_frozen_spec(
                        rec@,
                        rows(self.parser.index_builder.index@),
                        self.parser.index_builder.b_quote@,
                        old(self).queries.root_node,
                        0,
                        n as int - 1,
                        0,
                        ExtractState {
                            failed: false,
                            results: res_before,
                            stats: lift_stats(old(self).parser.stats@),
                        },
                    );
                }
            }
            proof {
                lemma_extraction_settled(
                    self.parser.index_builder,
                    rec@,
                    root0,
                    mlv,
                    trained0,
                    stats0,
                    npaths0,
                );
                assert(!parse_fails(rec@, root0, mlv, trained0, stats0, npaths0));
            }
            Ok(results)
        } else {
            match self.parser.basic_parse(
                rec,
                self.queries.as_node(),
                0,
                n - 1,
                0,
                true,
                &mut results,
            ) {
                Ok(()) => {},
                Err(e) => {
                    proof {
                        let ib = self.parser.index_builder;
                        assert(ib.wf_for(rec@) && ib.max_depth as int == mlv && extraction_failed(
                            ib,
                            rec@,
                            root0,
                            trained0,
                            stats0,
                            npaths0,
                        ));
                        assert(parse_fails(rec@, root0, mlv, trained0, stats0, npaths0));
                    }
                    return Err(e);
                },
            }
            self.trained_num = if self.trained_num < usize::MAX {
                self.trained_num + 1
            } else {
                self.trained_num
            };
            if self.trained_num >= self.train_num {
                self.trained = true;
            }
            proof {
                lemma_extraction_settled(
                    self.parser.index_builder,
                    rec@,
                    root0,
                    mlv,
                    trained0,
                    stats0,
                    npaths0,
                );
                assert(!parse_fails(rec@, root0, mlv, trained0, stats0, npaths0));
            }
            Ok(results)
        }
    }
}

/// The built index settles the extraction outcome: once one builder that
/// satisfies the characterization extracts without failure, every one does.
proof fn lemma_extraction_settled(
    ib: IndexBuilder,
    rec: Seq<u8>,
    root: QueryNode,
    max_level: int,
    trained: bool,
    stats0: Seq<Seq<usize>>,
    npaths: int,
)
    requires
        ib.wf_for(rec),
        ib.max_depth as int == max_level,
        !extraction_failed(ib, rec, root, trained, stats0, npaths),
    ensures
        !(exists|ib2: IndexBuilder|
            (#[trigger] ib2.wf_for(rec)) && ib2.max_depth as int == max_level && extraction_failed(
                ib2,
                rec,
                root,
                trained,
                stats0,
                npaths,
            )),
{
    if exists|ib2: IndexBuilder|
        (#[trigger] ib2.wf_for(rec)) && ib2.max_depth as int == max_level && extraction_failed(
            ib2,
            rec,
            root,
            trained,
            stats0,
            npaths,
        ) {
        let ib2 = choose|ib2: IndexBuilder|
            (#[trigger] ib2.wf_for(rec)) && ib2.max_depth as int == max_level
                && extraction_failed(ib2, rec, root, trained, stats0, npaths);
        lemma_wf_for_unique(ib2, ib, rec);
        assert(rows(ib2.index@) == rows(ib.index@)) by {
            assert(rows(ib2.index@) =~= rows(ib.index@));
        }
        assert(ib2.b_quote@ == ib.b_quote@);
        assert(extraction_failed(ib2, rec, root, trained, stats0, npaths) == extraction_failed(
            ib,
            rec,
            root,
            trained,
            stats0,
            npaths,
        ));
        assert(false);
    }
}

} // verus!
