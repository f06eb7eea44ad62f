//! The watch subsystem's decision core: glob pattern compilation and
//! matching (through the `glob` crate), derivation of the directories to
//! monitor, event relevance, and the per-watcher debounce state machine.
use vstd::prelude::*;
use crate::model::in_names;
use crate::schedule::contains_string;

verus! {

#[verifier::external_type_specification]
#[verifier::external_body]
pub struct ExPattern(glob::Pattern);

#[verifier::external_type_specification]
#[verifier::external_body]
pub struct ExPatternError(glob::PatternError);

/// The source text a compiled pattern was made from, as
/// `glob::Pattern::as_str` returns it.
pub uninterp spec fn pattern_source(p: glob::Pattern) -> Seq<char>;

/// Whether `glob::Pattern::new` accepts a source text: a function of
/// the text alone.
pub uninterp spec fn glob_ok(s: Seq<char>) -> bool;

/// What `glob::Pattern::matches` decides for a pattern's source text and
/// a path: a function of the two strings alone.
pub uninterp spec fn glob_match(pattern: Seq<char>, path: Seq<char>) -> bool;

/// Relies on glob::Pattern::new: whether it accepts a pattern depends on
/// the source text alone, and on success the compiled pattern carries
/// exactly that text (its `as_str`).
#[verifier::external_body]
fn compile_pattern(src: &str) -> (r: Result<glob::Pattern, glob::PatternError>)
    ensures
        (r is Ok) == glob_ok(src@),
        r matches Ok(p) ==> pattern_source(p) == src@,
{
    glob::Pattern::new(src)
}

/// Relies on glob::Pattern::matches: whether a path matches, decided by
/// the pattern's source text and the path alone.
#[verifier::external_body]
fn pattern_matches(p: &glob::Pattern, path: &str) -> (r: bool)
    ensures
        r == glob_match(pattern_source(*p), path@),
{
    p.matches(path)
}

/// A watcher setup fault: a glob pattern that does not compile, fatal
/// for that watcher since such a pattern can never match.
#[derive(Debug)]
pub enum WatchError {
    BadPattern(String),
}

/// Compiles every watch pattern; succeeds exactly when every pattern is
/// a valid glob, and otherwise reports the first pattern that is not.
pub fn compile_patterns(patterns: &Vec<String>) -> (r: Result<Vec<glob::Pattern>, WatchError>)
    ensures
        (r is Ok) <==> (forall|i: int| 0 <= i < patterns@.len() ==> glob_ok(
            #[trigger] patterns@[i]@,
        )),
        r matches Ok(ps) ==> ps@.len() == patterns@.len() && forall|i: int|
            0 <= i < ps@.len() ==> pattern_source(#[trigger] ps@[i]) == patterns@[i]@,
        r matches Err(e) ==> (e matches WatchError::BadPattern(p) && !glob_ok(p@) && in_names(
            patterns@,
            p@,
        )),
{
    let mut out: Vec<glob::Pattern> = Vec::new();
    let mut i: usize = 0;
    while i < patterns.len()
        invariant
            i <= patterns@.len(),
            out@.len() == i,
            forall|j: int| 0 <= j < i ==> glob_ok(#[trigger] patterns@[j]@),
            forall|j: int|
                0 <= j < i ==> pattern_source(#[trigger] out@[j]) == patterns@[j]@,
        decreases patterns@.len() - i,
    {
        match compile_pattern(patterns[i].as_str()) {
            Ok(p) => {
                out.push(p);
            },
            Err(_) => {
                proof {
                    assert(!glob_ok(patterns@[i as int]@));
                    assert(patterns@[i as int]@ == patterns@[i as int]@);
                }
                return Err(WatchError::BadPattern(patterns[i].clone()));
            },
        }
        i += 1;
    }
    Ok(out)
}

/// Whether a path matches any of the compiled patterns.
pub fn matches_any(patterns: &Vec<glob::Pattern>, path: &str) -> (r: bool)
    ensures
        r == exists|i: int|
            0 <= i < patterns@.len() && glob_match(pattern_source(#[trigger] patterns@[i]), path@),
{
    let mut i: usize = 0;
    while i < patterns.len()
        invariant
            i <= patterns@.len(),
            forall|j: int|
                0 <= j < i ==> !glob_match(pattern_source(#[trigger] patterns@[j]), path@),
        decreases patterns@.len() - i,
    {
        if pattern_matches(&patterns[i], path) {
            return true;
        }
        i += 1;
    }
    false
}

/// A pattern with its trailing separators removed; a lone leading
/// separator stays.
pub open spec fn strip_slashes(s: Seq<char>) -> Seq<char>
    decreases s.len(),
{
    if s.len() > 1 && s.last() == '/' {
        strip_slashes(s.drop_last())
    } else {
        s
    }
}

/// A pattern with its last path component removed.
pub open spec fn strip_name(s: Seq<char>) -> Seq<char>
    decreases s.len(),
{
    if s.len() > 0 && s.last() != '/' {
        strip_name(s.drop_last())
    } else {
        s
    }
}

/// The directory component of a pattern, as `Path::parent` would give
/// it: trailing separators and the last component come off, then the
/// separators before it; `/` survives alone, and a pattern without a
/// directory component maps to `.`.
pub open spec fn spec_parent_dir(s: Seq<char>) -> Seq<char> {
    if strip_slashes(strip_name(strip_slashes(s))).len() == 0 {
        seq!['.']
    } else {
        strip_slashes(strip_name(strip_slashes(s)))
    }
}

/// The directory to monitor for one pattern.
pub fn parent_dir(pattern: &str) -> (r: String)
    ensures
        r@ == spec_parent_dir(pattern@),
{
    let len = pattern.unicode_len();
    let ghost t1 = strip_slashes(pattern@);
    let ghost t2 = strip_name(t1);
    let ghost t3 = strip_slashes(t2);
    let mut i: usize = len;
    proof {
        assert(pattern@.subrange(0, len as int) =~= pattern@);
    }
    while i > 1 && pattern.get_char(i - 1) == '/'
        invariant
            i <= len,
            len == pattern@.len(),
            t1 == strip_slashes(pattern@.subrange(0, i as int)),
        decreases i,
    {
        proof {
            assert(pattern@.subrange(0, i as int).last() == pattern@[i - 1]);
            assert(pattern@.subrange(0, i as int).drop_last() =~= pattern@.subrange(0, i - 1));
        }
        i -= 1;
    }
    proof {
        let t = pattern@.subrange(0, i as int);
        assert(i <= 1 || t.last() != '/');
        assert(strip_slashes(t) == t);
        assert(t1 == t);
    }
    while i > 0 && pattern.get_char(i - 1) != '/'
        invariant
            i <= len,
            len == pattern@.len(),
            t2 == strip_name(pattern@.subrange(0, i as int)),
        decreases i,
    {
        proof {
            assert(pattern@.subrange(0, i as int).last() == pattern@[i - 1]);
            assert(pattern@.subrange(0, i as int).drop_last() =~= pattern@.subrange(0, i - 1));
        }
        i -= 1;
    }
    proof {
        let t = pattern@.subrange(0, i as int);
        assert(i == 0 || t.last() == '/');
        assert(strip_name(t) == t);
        assert(t2 == t);
    }
    while i > 1 && pattern.get_char(i - 1) == '/'
        invariant
            i <= len,
            len == pattern@.len(),
            t3 == strip_slashes(pattern@.subrange(0, i as int)),
        decreases i,
    {
        proof {
            assert(pattern@.subrange(0, i as int).last() == pattern@[i - 1]);
            assert(pattern@.subrange(0, i as int).drop_last() =~= pattern@.subrange(0, i - 1));
        }
        i -= 1;
    }
    proof {
        let t = pattern@.subrange(0, i as int);
        assert(i <= 1 || t.last() != '/');
        assert(strip_slashes(t) == t);
        assert(t3 == t);
    }
    if i == 0 {
        let r: String = ".".to_owned();
        proof {
            reveal_strlit(".");
            assert(pattern@.subrange(0, 0) =~= Seq::<char>::empty());
            assert(r@ =~= seq!['.']);
        }
        r
    } else {
        let d = pattern.substring_char(0, i);
        proof {
            assert(t3.len() == i > 0);
        }
        d.to_owned()
    }
}

/// Whether every name held by `r` is the directory component of one of
/// the patterns.
pub open spec fn dirs_from(patterns: Seq<String>, r: Seq<String>) -> bool {
    forall|x: Seq<char>| #[trigger] in_names(r, x) ==> exists|p: int|
        0 <= p < patterns.len() && x == spec_parent_dir(#[trigger] patterns[p]@)
}

/// The distinct directories to monitor for a set of patterns, in first
/// appearance order.
pub fn watch_dirs(patterns: &Vec<String>) -> (r: Vec<String>)
    ensures
        dirs_from(patterns@, r@),
        forall|p: int|
            0 <= p < patterns@.len() ==> in_names(r@, spec_parent_dir(#[trigger] patterns@[p]@)),
        forall|m1: int, m2: int| 0 <= m1 < m2 < r@.len() ==> r@[m1]@ != r@[m2]@,
{
    let mut r: Vec<String> = Vec::new();
    let ghost mut powner: Seq<int> = Seq::empty();
    let mut i: usize = 0;
    while i < patterns.len()
        invariant
            i <= patterns@.len(),
            powner.len() == r@.len(),
            forall|m: int|
                0 <= m < r@.len() ==> 0 <= #[trigger] powner[m] < patterns@.len() && r@[m]@
                    == spec_parent_dir(patterns@[powner[m]]@),
            forall|p: int|
                0 <= p < i ==> in_names(r@, spec_parent_dir(#[trigger] patterns@[p]@)),
            forall|m1: int, m2: int| 0 <= m1 < m2 < r@.len() ==> r@[m1]@ != r@[m2]@,
        decreases patterns@.len() - i,
    {
        let d = parent_dir(patterns[i].as_str());
        if !contains_string(&r, &d) {
            let ghost old_r = r@;
            r.push(d);
            proof {
                powner = powner.push(i as int);
                assert(r@[old_r.len() as int]@ == spec_parent_dir(patterns@[i as int]@));
                assert(forall|m: int| 0 <= m < old_r.len() ==> r@[m] == old_r[m]);
                assert forall|x: Seq<char>| #[trigger] in_names(old_r, x) implies in_names(r@, x)
                    by {
                    let m = choose|m: int| 0 <= m < old_r.len() && #[trigger] old_r[m]@ == x;
                    assert(r@[m]@ == x);
                }
                assert(in_names(r@, spec_parent_dir(patterns@[i as int]@)));
            }
        }
        i += 1;
    }
    proof {
        assert forall|x: Seq<char>| #[trigger] in_names(r@, x) implies exists|p: int|
            0 <= p < patterns@.len() && x == spec_parent_dir(#[trigger] patterns@[p]@) by {
            let m = choose|m: int| 0 <= m < r@.len() && #[trigger] r@[m]@ == x;
            let p = powner[m];
            assert(0 <= p < patterns@.len() && x == spec_parent_dir(patterns@[p]@));
        }
        assert(dirs_from(patterns@, r@));
    }
    r
}

/// A filesystem event's kind, as the watch loop classifies it.
pub enum FileEventKind {
    Create,
    Modify,
    Remove,
    Other,
}

/// Whether an event kind can re-trigger a task: only creation,
/// modification and removal count.
pub fn is_relevant_kind(k: &FileEventKind) -> (r: bool)
    ensures
        r == (k is Create || k is Modify || k is Remove),
{
    match k {
        FileEventKind::Create => true,
        FileEventKind::Modify => true,
        FileEventKind::Remove => true,
        FileEventKind::Other => false,
    }
}

/// One watcher's debounce state: its interval and the instant of the
/// last accepted trigger, if any.  It is private to the watcher's own
/// execution unit; the watcher starts armed, with no accepted trigger.
pub struct WatcherState {
    pub debounce_ms: u64,
    pub last_trigger: Option<u64>,
}

/// Whether a relevant event arriving at `now_ms` passes the debounce:
/// always for the first trigger, afterwards only once the interval has
/// elapsed since the last accepted one.
pub open spec fn debounce_ready(st: WatcherState, now_ms: u64) -> bool {
    match st.last_trigger {
        None => true,
        Some(t) => now_ms >= t + st.debounce_ms,
    }
}

impl WatcherState {
    /// A watcher state armed with the given debounce interval.
    pub fn new(debounce_ms: u64) -> (st: WatcherState)
        ensures
            st.debounce_ms == debounce_ms,
            st.last_trigger is None,
    {
        WatcherState { debounce_ms, last_trigger: None }
    }

    /// Decides one filesystem event: the task is re-triggered exactly
    /// when the event's kind is relevant, its path matches one of the
    /// patterns, and the debounce interval has elapsed; an accepted
    /// trigger records its instant, a dropped event changes nothing.
    pub fn on_event(
        &mut self,
        kind: &FileEventKind,
        path: &str,
        patterns: &Vec<glob::Pattern>,
        now_ms: u64,
    ) -> (trigger: bool)
        ensures
            trigger == ((kind is Create || kind is Modify || kind is Remove) && (exists|i: int|
                0 <= i < patterns@.len() && glob_match(
                    pattern_source(#[trigger] patterns@[i]),
                    path@,
                )) && debounce_ready(*old(self), now_ms)),
            final (self).debounce_ms == old(self).debounce_ms,
            final (self).last_trigger == if trigger {
                Some(now_ms)
            } else {
                old(self).last_trigger
            },
    {
        if !is_relevant_kind(kind) {
            return false;
        }
        if !matches_any(patterns, path) {
            return false;
        }
        let ready = match self.last_trigger {
            None => true,
            Some(t) => now_ms >= t && now_ms - t >= self.debounce_ms,
        };
        if ready {
            self.last_trigger = Some(now_ms);
            true
        } else {
            false
        }
    }
}

} // verus!
