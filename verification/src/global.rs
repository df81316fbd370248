//! The shell's shared state: the executable search cache and the job set.
//! It is owned by the read–eval loop and handed mutably to one evaluation
//! at a time.

use vstd::prelude::*;

use crate::job::JobSet;
use crate::search::SearchCache;

verus! {

pub struct State {
    pub search_cache: SearchCache,
    pub job_set: JobSet,
}

impl State {
    /// Fresh state: an empty cache (the embedding program populates it
    /// through `rehash` with the PATH directories' entries) and an empty
    /// job set.
    pub fn new() -> (s: State)
        ensures
            s.search_cache.wf(),
            s.search_cache.imp@.len() == 0,
            s.job_set.wf(),
            s.job_set.jobs@.len() == 0,
            s.job_set.events@.len() == 0,
    {
        let search_cache = SearchCache::new();
        let job_set = JobSet::new();
        State { search_cache: search_cache, job_set: job_set }
    }
}

} // verus!
