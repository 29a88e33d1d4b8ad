//! The study-calendar cache: a memoised copy of the per-day study counts,
//! filled after a successful aggregation and dropped whenever a study event
//! could change it.

use vstd::prelude::*;

verus! {

/// One day's study activity: the calendar date and how many distinct words
/// were studied on it.
#[derive(Clone, Debug, PartialEq)]
pub struct DailyStudyCount {
    pub date: String,
    pub word_count: i64,
}

/// The cache: either a copy of the calendar, or nothing.
pub struct StudyCalendarCache {
    counts: Option<Vec<DailyStudyCount>>,
}

impl StudyCalendarCache {
    /// The cached calendar, if one is held.
    pub closed spec fn cached(&self) -> Option<Seq<DailyStudyCount>> {
        match self.counts {
            Some(v) => Some(v@),
            None => None,
        }
    }

    /// An empty cache.
    pub fn new() -> (cache: StudyCalendarCache)
        ensures
            cache.cached() is None,
    {
        StudyCalendarCache { counts: None }
    }

    /// The cached calendar, if one is held.
    pub fn get(&self) -> (r: Option<&Vec<DailyStudyCount>>)
        ensures
            match self.cached() {
                Some(s) => r matches Some(v) && v@ == s,
                None => r is None,
            },
    {
        match &self.counts {
            Some(v) => Some(v),
            None => None,
        }
    }

    /// Remember a freshly computed calendar.
    pub fn set(&mut self, counts: Vec<DailyStudyCount>)
        ensures
            final(self).cached() == Some(counts@),
    {
        self.counts = Some(counts);
    }

    /// Drop the cached calendar, so the next reader recomputes it.
    pub fn invalidate(&mut self)
        ensures
            final(self).cached() is None,
    {
        self.counts = None;
    }
}

impl Default for StudyCalendarCache {
    /// An empty cache.
    fn default() -> (cache: StudyCalendarCache)
        ensures
            cache.cached() is None,
    {
        StudyCalendarCache::new()
    }
}

} // verus!
