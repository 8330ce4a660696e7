//! Benchmark run configuration and the decisions a timed run makes from it:
//! which queries run, how many timed iterations, and which sample is reported.
use vstd::prelude::*;
use crate::ranking::{rank_rel, sort_ranked, RankOrder};
use crate::text::chars_of;
use crate::textlines::{char_rows, split_words, text_words};

verus! {

/// Per-run benchmark configuration, set once from the command line.
#[derive(Clone)]
pub struct BenchCfg {
    /// Run only the query whose first name word, lower-cased, equals this.
    pub only: Option<String>,
    /// Timed-iteration count; `0` keeps each query's own default.
    pub runs: usize,
    /// Report allocation count and bytes for one call instead of timing.
    pub alloc: bool,
}

impl Default for BenchCfg {
    fn default() -> (c: BenchCfg)
        ensures
            c.only is None,
            c.runs == 0,
            !c.alloc,
    {
        BenchCfg { only: None, runs: 0, alloc: false }
    }
}

/// What `str::to_lowercase` gives for `s` (full Unicode case mapping).
pub uninterp spec fn lowercase(s: Seq<char>) -> Seq<char>;

/// `s` in lower case (`str::to_lowercase`).
#[verifier::external_body]
fn to_lower(s: &[char]) -> (r: Vec<char>)
    ensures
        r@ == lowercase(s@),
{
    let t: String = s.iter().collect();
    t.to_lowercase().chars().collect()
}

/// The query id of a benchmark name: its first word, lower-cased (empty when
/// the name has no word).
pub open spec fn query_id(name: Seq<char>) -> Seq<char> {
    let w = text_words(name);
    if w.len() >= 1 {
        lowercase(w[0])
    } else {
        lowercase(Seq::empty())
    }
}

/// Whether `cfg` selects the query `name`: always without `only`, else when
/// the name's query id is `only`.
pub open spec fn selects_spec(cfg: BenchCfg, name: Seq<char>) -> bool {
    match cfg.only {
        None => true,
        Some(o) => query_id(name) == o@,
    }
}

fn same_chars(a: &[char], b: &[char]) -> (r: bool)
    ensures
        r == (a@ == b@),
{
    if a.len() != b.len() {
        return false;
    }
    let mut i: usize = 0;
    while i < a.len()
        invariant
            a@.len() == b@.len(),
            i <= a@.len(),
            forall|j: int| 0 <= j < i ==> a@[j] == b@[j],
        decreases a@.len() - i,
    {
        if a[i] != b[i] {
            return false;
        }
        i = i + 1;
    }
    proof {
        assert(a@ =~= b@);
    }
    true
}

/// Whether the configuration runs the query with the lower-cased id `id`:
/// always without `only`, else when `id` is `only`.
pub fn selects_id(cfg: &BenchCfg, id: &[char]) -> (r: bool)
    ensures
        r == match cfg.only {
            None => true,
            Some(o) => id@ == o@,
        },
{
    match &cfg.only {
        None => true,
        Some(only) => {
            let o = chars_of(only.as_str());
            same_chars(id, o.as_slice())
        },
    }
}

/// Whether the configuration runs the query `name`.
pub fn selects(cfg: &BenchCfg, name: &str) -> (r: bool)
    ensures
        r == selects_spec(*cfg, name@),
{
    let words = split_words(&chars_of(name));
    let ghost w = text_words(name@);
    let id = if words.len() >= 1 {
        proof {
            assert(char_rows(words@)[0] == w[0]);
        }
        to_lower(words[0].as_slice())
    } else {
        let empty: Vec<char> = Vec::new();
        proof {
            assert(empty@ =~= Seq::<char>::empty());
        }
        to_lower(empty.as_slice())
    };
    selects_id(cfg, id.as_slice())
}

/// Timed iterations for a query whose default is `runs`: the configured count
/// when it is set (non-zero), else `runs`.
pub fn effective_runs(cfg: &BenchCfg, runs: usize) -> (r: usize)
    ensures
        r == (if cfg.runs > 0 { cfg.runs } else { runs }),
{
    if cfg.runs > 0 {
        cfg.runs
    } else {
        runs
    }
}

/// The reported sample of a timed run: the middle one (upper middle for an
/// even count) of the samples in ascending order.
pub fn median_sample(samples: Vec<u128>) -> (r: u128)
    requires
        samples@.len() > 0,
    ensures
        r == samples@.sort_by(rank_rel::<u128>())[(samples@.len() / 2) as int],
{
    let ghost orig = samples@;
    let sorted = sort_ranked(samples);
    proof {
        broadcast use vstd::seq_lib::group_to_multiset_ensures;
        let rel = rank_rel::<u128>();
        u128::lemma_rank_total();
        assert(rel == |a: u128, b: u128| a.ranks_le(b));
        orig.lemma_sort_by_ensures(rel);
        assert(sorted@.to_multiset().len() == orig.to_multiset().len());
    }
    sorted[sorted.len() / 2]
}

} // verus!
