//! Runtime preferences read by the capture loop and the retention policy.
use vstd::prelude::*;

verus! {

/// Bounds that the store is trimmed to after each capture.
#[derive(Clone, Copy, Debug, PartialEq, Eq, Structural)]
pub struct RetentionPolicy {
    pub max_entries: Option<usize>,
    pub max_age_days: Option<u32>,
    pub vacuum_on_start: bool,
}

impl Default for RetentionPolicy {
    fn default() -> (r: Self)
        ensures
            r.max_entries == Some(500usize),
            r.max_age_days is None,
            r.vacuum_on_start,
    {
        RetentionPolicy { max_entries: Some(500), max_age_days: None, vacuum_on_start: true }
    }
}

/// The preferences that the capture loop reads at the start of each tick.
#[derive(Clone, Debug)]
pub struct RuntimePreferences {
    pub dedupe_enabled: bool,
    pub debounce_interval_ms: u64,
    pub ignore_self_copies: bool,
    pub ignored_keywords: Vec<String>,
    pub retention: RetentionPolicy,
    pub log_level: String,
}

pub struct PreferencesView {
    pub dedupe_enabled: bool,
    pub debounce_interval_ms: u64,
    pub ignore_self_copies: bool,
    pub ignored_keywords: Seq<Seq<char>>,
    pub retention: RetentionPolicy,
    pub log_level: Seq<char>,
}

impl View for RuntimePreferences {
    type V = PreferencesView;

    open spec fn view(&self) -> PreferencesView {
        PreferencesView {
            dedupe_enabled: self.dedupe_enabled,
            debounce_interval_ms: self.debounce_interval_ms,
            ignore_self_copies: self.ignore_self_copies,
            ignored_keywords: self.ignored_keywords@.map_values(|k: String| k@),
            retention: self.retention,
            log_level: self.log_level@,
        }
    }
}

impl Default for RuntimePreferences {
    fn default() -> (r: Self)
        ensures
            r.dedupe_enabled,
            r.debounce_interval_ms == 320,
            r.ignore_self_copies,
            r.ignored_keywords@.len() == 0,
            r.retention.max_entries == Some(500usize),
            r.retention.max_age_days is None,
            r.retention.vacuum_on_start,
            r.log_level@ == seq!['i', 'n', 'f', 'o'],
    {
        let log_level = "info".to_owned();
        proof {
            reveal_strlit("info");
        }
        RuntimePreferences {
            dedupe_enabled: true,
            debounce_interval_ms: 320,
            ignore_self_copies: true,
            ignored_keywords: Vec::new(),
            retention: RetentionPolicy::default(),
            log_level,
        }
    }
}

impl RuntimePreferences {
    /// A field-for-field copy.
    pub fn snapshot(&self) -> (r: RuntimePreferences)
        ensures
            r@ == self@,
    {
        let mut keywords: Vec<String> = Vec::new();
        let mut i: usize = 0;
        while i < self.ignored_keywords.len()
            invariant
                i <= self.ignored_keywords@.len(),
                keywords@.len() == i,
                forall|k: int| 0 <= k < i ==> #[trigger] keywords@[k]@ == self.ignored_keywords@[k]@,
            decreases self.ignored_keywords@.len() - i,
        {
            keywords.push(self.ignored_keywords[i].clone());
            i = i + 1;
        }
        let r = RuntimePreferences {
            dedupe_enabled: self.dedupe_enabled,
            debounce_interval_ms: self.debounce_interval_ms,
            ignore_self_copies: self.ignore_self_copies,
            ignored_keywords: keywords,
            retention: self.retention,
            log_level: self.log_level.clone(),
        };
        assert(r@.ignored_keywords =~= self@.ignored_keywords);
        r
    }
}

/// The preferences in force; the host shares it behind a lock and the loop
/// takes a snapshot at the start of each tick.
pub struct RuntimeConfigState {
    inner: RuntimePreferences,
}

impl View for RuntimeConfigState {
    type V = PreferencesView;

    closed spec fn view(&self) -> PreferencesView {
        self.inner@
    }
}

impl Default for RuntimeConfigState {
    fn default() -> (r: Self)
        ensures
            r@.dedupe_enabled,
            r@.debounce_interval_ms == 320,
            r@.ignore_self_copies,
            r@.ignored_keywords.len() == 0,
            r@.retention.max_entries == Some(500usize),
    {
        RuntimeConfigState { inner: RuntimePreferences::default() }
    }
}

impl RuntimeConfigState {
    /// A snapshot of the preferences in force.
    pub fn get(&self) -> (r: RuntimePreferences)
        ensures
            r@ == self@,
    {
        self.inner.snapshot()
    }

    /// Replaces the preferences in force.
    pub fn update(&mut self, prefs: RuntimePreferences)
        ensures
            final(self)@ == prefs@,
    {
        self.inner = prefs;
    }
}

} // verus!
