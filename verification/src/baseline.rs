//! Recorded scores for code that already exists, so an established codebase can
//! adopt a threshold without fixing everything first.
use vstd::prelude::*;
use vstd::string::*;
use crate::complexity::{spec_qualified_name, Finding};
use crate::text::chars_of;

verus! {

/// The version of the recorded format this build reads and writes.
pub const FORMAT_VERSION: u32 = 1;

/// One recorded score: a function, identified by its file and qualified name.
#[derive(Debug, Clone)]
pub struct BaselineEntry {
    pub path: String,
    pub name: String,
    pub score: u32,
}

/// What a baseline records, as mathematical values: its format version, and
/// the accepted score of each (file, qualified name) pair.
pub struct BaselineView {
    pub version: u32,
    pub scores: Map<(Seq<char>, Seq<char>), u32>,
}

impl BaselineView {
    /// A finding is a regression unless its function was recorded and its score
    /// is no worse than the recorded one.
    pub open spec fn is_regression(self, path: Seq<char>, name: Seq<char>, score: u32) -> bool {
        let key = (normalize(path), name);
        !(self.scores.contains_key(key) && score <= self.scores[key])
    }
}

/// Paths are compared with forward slashes, so a baseline written on one
/// platform still matches on another.
pub open spec fn normalize(path: Seq<char>) -> Seq<char> {
    path.map_values(|c: char| if c == '\\' { '/' } else { c })
}

pub open spec fn entry_key(e: BaselineEntry) -> (Seq<char>, Seq<char>) {
    (e.path@, e.name@)
}

/// Records `score` under `key`, keeping the higher of it and any score already
/// recorded there: every recorded finding stays accepted.
pub open spec fn keep_higher(
    scores: Map<(Seq<char>, Seq<char>), u32>,
    key: (Seq<char>, Seq<char>),
    score: u32,
) -> Map<(Seq<char>, Seq<char>), u32> {
    if scores.contains_key(key) && score <= scores[key] {
        scores
    } else {
        scores.insert(key, score)
    }
}

/// The scores that a list of entries records; where a function has several
/// entries, the highest score counts.
pub open spec fn scores_of(entries: Seq<BaselineEntry>) -> Map<(Seq<char>, Seq<char>), u32>
    decreases entries.len(),
{
    if entries.len() == 0 {
        Map::empty()
    } else {
        keep_higher(scores_of(entries.drop_last()), entry_key(entries.last()), entries.last().score)
    }
}

/// The key under which a finding is recorded: its normalised path and its
/// qualified name.
pub open spec fn finding_key(finding: (String, Finding)) -> (Seq<char>, Seq<char>) {
    (normalize(finding.0@), spec_qualified_name(finding.1@.class, finding.1@.name))
}

/// The scores that recording `findings` gives: each finding's score under its
/// normalised path and qualified name, the highest where a function occurs
/// more than once.
pub open spec fn recorded(findings: Seq<(String, Finding)>) -> Map<(Seq<char>, Seq<char>), u32>
    decreases findings.len(),
{
    if findings.len() == 0 {
        Map::empty()
    } else {
        keep_higher(recorded(findings.drop_last()), finding_key(findings.last()), findings.last().1.score)
    }
}

/// What reading back a recorded version and entries gives: the baseline they
/// record, or the version where this build does not understand it.
pub open spec fn loaded(version: u32, entries: Seq<BaselineEntry>) -> Result<BaselineView, u32> {
    if version == FORMAT_VERSION {
        Ok(BaselineView { version, scores: scores_of(entries) })
    } else {
        Err(version)
    }
}

pub open spec fn distinct_keys(entries: Seq<BaselineEntry>) -> bool {
    forall|a: int, b: int|
        0 <= a < b < entries.len() ==> entry_key(#[trigger] entries[a]) != entry_key(
            #[trigger] entries[b],
        )
}

proof fn lemma_distinct_prefix(entries: Seq<BaselineEntry>)
    requires
        distinct_keys(entries),
        entries.len() > 0,
    ensures
        distinct_keys(entries.drop_last()),
{
    let rest = entries.drop_last();
    assert forall|a: int, b: int|
        0 <= a < b < rest.len() implies entry_key(#[trigger] rest[a]) != entry_key(
        #[trigger] rest[b],
    ) by {
        assert(rest[a] == entries[a] && rest[b] == entries[b]);
    }
}

proof fn lemma_scores_of(entries: Seq<BaselineEntry>)
    ensures
        scores_of(entries).dom().finite(),
        forall|k| #[trigger]
            scores_of(entries).contains_key(k) <==> exists|a: int|
                0 <= a < entries.len() && entry_key(entries[a]) == k,
        distinct_keys(entries) ==> scores_of(entries).len() == entries.len(),
        distinct_keys(entries) ==> forall|a: int|
            0 <= a < entries.len() ==> scores_of(entries)[entry_key(#[trigger] entries[a])]
                == entries[a].score,
    decreases entries.len(),
{
    if entries.len() > 0 {
        let rest = entries.drop_last();
        lemma_scores_of(rest);
        let last = entries.last();
        assert forall|k| #[trigger]
            scores_of(entries).contains_key(k) <==> exists|a: int|
                0 <= a < entries.len() && entry_key(entries[a]) == k by {
            if scores_of(entries).contains_key(k) && k != entry_key(last) {
                let a = choose|a: int| 0 <= a < rest.len() && entry_key(rest[a]) == k;
                assert(entries[a] == rest[a]);
            }
            if exists|a: int| 0 <= a < entries.len() && entry_key(entries[a]) == k {
                let a = choose|a: int| 0 <= a < entries.len() && entry_key(entries[a]) == k;
                if a < entries.len() - 1 {
                    assert(rest[a] == entries[a]);
                }
            }
        }
        if distinct_keys(entries) {
            lemma_distinct_prefix(entries);
            assert(!scores_of(rest).contains_key(entry_key(last))) by {
                if scores_of(rest).contains_key(entry_key(last)) {
                    let a = choose|a: int| 0 <= a < rest.len() && entry_key(rest[a]) == entry_key(last);
                    assert(entries[a] == rest[a]);
                    assert(entry_key(entries[a]) != entry_key(entries[entries.len() - 1]));
                }
            }
            assert forall|a: int| 0 <= a < entries.len() implies scores_of(
                entries,
            )[entry_key(#[trigger] entries[a])] == entries[a].score by {
                if a < entries.len() - 1 {
                    assert(rest[a] == entries[a]);
                    assert(entry_key(entries[a]) != entry_key(entries[entries.len() - 1]));
                }
            }
        }
    }
}

/// Where no function has two entries, each entry's score is recorded as it is.
proof fn lemma_scores_of_last(entries: Seq<BaselineEntry>)
    requires
        distinct_keys(entries),
        entries.len() > 0,
    ensures
        scores_of(entries) == scores_of(entries.drop_last()).insert(
            entry_key(entries.last()),
            entries.last().score,
        ),
{
    let rest = entries.drop_last();
    lemma_scores_of(rest);
    assert(!scores_of(rest).contains_key(entry_key(entries.last()))) by {
        if scores_of(rest).contains_key(entry_key(entries.last())) {
            let a = choose|a: int|
                0 <= a < rest.len() && entry_key(rest[a]) == entry_key(entries.last());
            assert(entries[a] == rest[a]);
            assert(entry_key(entries[a]) != entry_key(entries[entries.len() - 1]));
        }
    }
}

/// Replacing the entry for a function replaces its recorded score.
proof fn lemma_scores_of_update(entries: Seq<BaselineEntry>, j: int, e: BaselineEntry)
    requires
        distinct_keys(entries),
        0 <= j < entries.len(),
        entry_key(entries[j]) == entry_key(e),
    ensures
        scores_of(entries.update(j, e)) == scores_of(entries).insert(entry_key(e), e.score),
        distinct_keys(entries.update(j, e)),
    decreases entries.len(),
{
    let updated = entries.update(j, e);
    assert(distinct_keys(updated)) by {
        assert forall|a: int, b: int|
            0 <= a < b < updated.len() implies entry_key(#[trigger] updated[a]) != entry_key(
            #[trigger] updated[b],
        ) by {
            assert(entry_key(updated[a]) == entry_key(entries[a]));
            assert(entry_key(updated[b]) == entry_key(entries[b]));
        }
    }
    let rest = entries.drop_last();
    lemma_scores_of_last(entries);
    lemma_scores_of_last(updated);
    if j == entries.len() - 1 {
        assert(updated.drop_last() =~= rest);
        assert(scores_of(updated) =~= scores_of(entries).insert(entry_key(e), e.score));
    } else {
        lemma_distinct_prefix(entries);
        assert(rest[j] == entries[j]);
        lemma_scores_of_update(rest, j, e);
        assert(updated.drop_last() =~= rest.update(j, e));
        assert(updated.last() == entries.last());
        assert(entry_key(entries[j]) != entry_key(entries[entries.len() - 1]));
        assert(scores_of(updated) =~= scores_of(entries).insert(entry_key(e), e.score));
    }
}

/// Each recorded finding's function is recorded, at a score no lower than the
/// finding's own.
proof fn lemma_recorded_covers(findings: Seq<(String, Finding)>)
    ensures
        recorded(findings).dom().finite(),
        recorded(findings).len() <= findings.len(),
        forall|k: int|
            0 <= k < findings.len() ==> {
                let key = finding_key(#[trigger] findings[k]);
                recorded(findings).contains_key(key) && findings[k].1.score <= recorded(
                    findings,
                )[key]
            },
    decreases findings.len(),
{
    if findings.len() > 0 {
        let rest = findings.drop_last();
        lemma_recorded_covers(rest);
        assert forall|k: int| 0 <= k < findings.len() implies {
            let key = finding_key(#[trigger] findings[k]);
            recorded(findings).contains_key(key) && findings[k].1.score <= recorded(
                findings,
            )[key]
        } by {
            if k < findings.len() - 1 {
                assert(rest[k] == findings[k]);
            }
        }
    }
}

/// The same characters with every backslash turned into a forward slash.
fn forward_slashes(path: &str) -> (normalized: String)
    ensures
        normalized@ == normalize(path@),
{
    let cs = chars_of(path);
    let mut out = String::new();
    let mut seg: usize = 0;
    let mut k: usize = 0;
    while k < cs.len()
        invariant
            seg <= k <= cs@.len(),
            cs@ == path@,
            out@ == normalize(path@.subrange(0, seg as int)),
            forall|j: int| seg <= j < k ==> path@[j] != '\\',
        decreases cs@.len() - k,
    {
        if cs[k] == '\\' {
            let piece = path.substring_char(seg, k);
            out.append(piece);
            let slash = "/";
            proof {
                reveal_strlit("/");
            }
            out.append(slash);
            assert(out@ =~= normalize(path@.subrange(0, k + 1)));
            seg = k + 1;
        }
        k = k + 1;
    }
    let rest = path.substring_char(seg, cs.len());
    out.append(rest);
    assert(out@ =~= normalize(path@));
    out
}

/// Whether `s[k]` is one of the separators `seps`.
pub open spec fn is_separator(seps: Seq<char>, s: Seq<char>, k: int) -> bool {
    0 <= k < s.len() && seps.contains(s[k])
}

/// Whether a `.` component starts at `k`: a dot followed by a separator or by
/// the end of the path.
pub open spec fn is_dot_component(seps: Seq<char>, s: Seq<char>, k: int) -> bool {
    0 <= k < s.len() && s[k] == '.' && (k + 1 == s.len() || seps.contains(s[k + 1]))
}

/// The first position from `k` on that is neither a separator nor the start of
/// a `.` component: where the next real component begins.
pub open spec fn skip_junk(seps: Seq<char>, s: Seq<char>, k: int) -> int
    decreases s.len() - k,
{
    if is_separator(seps, s, k) || is_dot_component(seps, s, k) {
        skip_junk(seps, s, k + 1)
    } else {
        k
    }
}

/// The end of the component that starts at `k`: the next separator, or the
/// end of the path.
pub open spec fn component_end(seps: Seq<char>, s: Seq<char>, k: int) -> int
    decreases s.len() - k,
{
    if 0 <= k < s.len() && !seps.contains(s[k]) {
        component_end(seps, s, k + 1)
    } else {
        k
    }
}

/// The end of `s[lo..hi]` once its closing separators and `.` components are
/// taken off.
pub open spec fn trim_end(seps: Seq<char>, s: Seq<char>, lo: int, hi: int) -> int
    decreases hi - lo,
{
    if lo < hi && (seps.contains(s[hi - 1]) || (s[hi - 1] == '.' && (hi - 1 == lo
        || seps.contains(s[hi - 2])))) {
        trim_end(seps, s, lo, hi - 1)
    } else {
        hi
    }
}

/// The length of a path's head: a root separator, a leading `.` component, or
/// nothing.
pub open spec fn head_len(seps: Seq<char>, s: Seq<char>) -> int {
    if is_separator(seps, s, 0) || is_dot_component(seps, s, 0) {
        1
    } else {
        0
    }
}

/// Two paths start alike: both at the root, both with a `.` component, or both
/// with an ordinary component.
pub open spec fn same_head(seps: Seq<char>, a: Seq<char>, b: Seq<char>) -> bool {
    &&& is_separator(seps, a, 0) == is_separator(seps, b, 0)
    &&& is_dot_component(seps, a, 0) == is_dot_component(seps, b, 0)
}

/// Where the components of `base[j..]` are the leading components of
/// `path[i..]`, the position in `path` just after them. Components are compared
/// one by one as text; repeated separators and `.` components between them do
/// not count.
pub open spec fn strip_from(seps: Seq<char>, path: Seq<char>, i: int, base: Seq<char>, j: int) -> Option<int>
    decreases path.len() - i,
{
    if i < 0 || j < 0 || i > path.len() {
        None
    } else {
        let i1 = skip_junk(seps, path, i);
        let j1 = skip_junk(seps, base, j);
        if j1 >= base.len() {
            Some(i1)
        } else if i1 >= path.len() {
            None
        } else {
            proof {
                lemma_skip_junk(seps, path, i);
                lemma_component_end(seps, path, i1);
            }
            let pe = component_end(seps, path, i1);
            let be = component_end(seps, base, j1);
            if path.subrange(i1, pe) == base.subrange(j1, be) {
                strip_from(seps, path, pe, base, be)
            } else {
                None
            }
        }
    }
}

/// `path` with the leading components of `base` taken off, and with the
/// separators and `.` components that would open or close what is left taken
/// off too; `None` where `base` does not name leading components of `path`.
/// This is how `std::path::Path::strip_prefix` strips, for paths split on the
/// separators `seps`.
pub open spec fn strip_prefix(seps: Seq<char>, path: Seq<char>, base: Seq<char>) -> Option<Seq<char>> {
    if base.len() == 0 {
        Some(path.subrange(0, trim_end(seps, path, head_len(seps, path), path.len() as int)))
    } else if !same_head(seps, path, base) {
        None
    } else {
        match strip_from(seps, path, head_len(seps, path), base, head_len(seps, base)) {
            Some(k) => Some(path.subrange(k, trim_end(seps, path, k, path.len() as int))),
            None => None,
        }
    }
}

/// `path` relative to the working directory `cwd`: stripped of it where it
/// lies below it, and as it is otherwise, or where the working directory is
/// unknown.
pub open spec fn relative_path(seps: Seq<char>, path: Seq<char>, cwd: Option<Seq<char>>) -> Seq<char> {
    match cwd {
        None => path,
        Some(dir) => match strip_prefix(seps, path, dir) {
            Some(rest) => rest,
            None => path,
        },
    }
}

pub open spec fn dir_view(cwd: Option<&str>) -> Option<Seq<char>> {
    match cwd {
        Some(dir) => Some(dir@),
        None => None,
    }
}

pub proof fn lemma_skip_junk(seps: Seq<char>, s: Seq<char>, k: int)
    requires
        0 <= k <= s.len(),
    ensures
        k <= skip_junk(seps, s, k) <= s.len(),
        skip_junk(seps, s, k) < s.len() ==> !seps.contains(s[skip_junk(seps, s, k)]),
    decreases s.len() - k,
{
    if is_separator(seps, s, k) || is_dot_component(seps, s, k) {
        lemma_skip_junk(seps, s, k + 1);
    }
}

pub proof fn lemma_component_end(seps: Seq<char>, s: Seq<char>, k: int)
    requires
        0 <= k <= s.len(),
    ensures
        k <= component_end(seps, s, k) <= s.len(),
        k < s.len() && !seps.contains(s[k]) ==> component_end(seps, s, k) > k,
    decreases s.len() - k,
{
    if 0 <= k < s.len() && !seps.contains(s[k]) {
        lemma_component_end(seps, s, k + 1);
    }
}

fn separates(separators: &[char], c: char) -> (found: bool)
    ensures
        found == separators@.contains(c),
{
    let mut k: usize = 0;
    while k < separators.len()
        invariant
            k <= separators@.len(),
            forall|a: int| 0 <= a < k ==> separators@[a] != c,
        decreases separators@.len() - k,
    {
        if separators[k] == c {
            assert(separators@[k as int] == c);
            return true;
        }
        k = k + 1;
    }
    false
}

fn separator_at(separators: &[char], s: &Vec<char>, k: usize) -> (found: bool)
    ensures
        found == is_separator(separators@, s@, k as int),
{
    k < s.len() && separates(separators, s[k])
}

fn dot_component_at(separators: &[char], s: &Vec<char>, k: usize) -> (found: bool)
    ensures
        found == is_dot_component(separators@, s@, k as int),
{
    k < s.len() && s[k] == '.' && (k + 1 == s.len() || separates(separators, s[k + 1]))
}

fn skip_junk_from(separators: &[char], s: &Vec<char>, k: usize) -> (next: usize)
    requires
        k <= s@.len(),
    ensures
        next == skip_junk(separators@, s@, k as int),
        k <= next <= s@.len(),
{
    let mut m = k;
    while m < s.len() && (separator_at(separators, s, m) || dot_component_at(separators, s, m))
        invariant
            k <= m <= s@.len(),
            skip_junk(separators@, s@, m as int) == skip_junk(separators@, s@, k as int),
        decreases s@.len() - m,
    {
        m = m + 1;
    }
    m
}

fn component_end_from(separators: &[char], s: &Vec<char>, k: usize) -> (end: usize)
    requires
        k <= s@.len(),
    ensures
        end == component_end(separators@, s@, k as int),
        k <= end <= s@.len(),
{
    let mut m = k;
    while m < s.len() && !separates(separators, s[m])
        invariant
            k <= m <= s@.len(),
            component_end(separators@, s@, m as int) == component_end(separators@, s@, k as int),
        decreases s@.len() - m,
    {
        m = m + 1;
    }
    m
}

fn trim_end_within(separators: &[char], s: &Vec<char>, lo: usize, hi: usize) -> (end: usize)
    requires
        lo <= hi <= s@.len(),
    ensures
        end == trim_end(separators@, s@, lo as int, hi as int),
        lo <= end <= hi,
{
    let mut m = hi;
    while lo < m && (separates(separators, s[m - 1]) || (s[m - 1] == '.' && (m - 1 == lo
        || separates(separators, s[m - 2]))))
        invariant
            lo <= m <= hi <= s@.len(),
            trim_end(separators@, s@, lo as int, m as int) == trim_end(
                separators@,
                s@,
                lo as int,
                hi as int,
            ),
        decreases m - lo,
    {
        m = m - 1;
    }
    m
}

fn same_text(a: &Vec<char>, alo: usize, ahi: usize, b: &Vec<char>, blo: usize, bhi: usize) -> (same: bool)
    requires
        alo <= ahi <= a@.len(),
        blo <= bhi <= b@.len(),
    ensures
        same == (a@.subrange(alo as int, ahi as int) == b@.subrange(blo as int, bhi as int)),
{
    if ahi - alo != bhi - blo {
        assert(a@.subrange(alo as int, ahi as int).len() != b@.subrange(blo as int, bhi as int).len());
        return false;
    }
    let mut k: usize = 0;
    while k < ahi - alo
        invariant
            alo <= ahi <= a@.len(),
            blo <= bhi <= b@.len(),
            ahi - alo == bhi - blo,
            k <= ahi - alo,
            forall|t: int| alo <= t < alo + k ==> #[trigger] a@[t] == b@[t - alo + blo],
        decreases ahi - alo - k,
    {
        if a[alo + k] != b[blo + k] {
            assert(a@.subrange(alo as int, ahi as int)[k as int] != b@.subrange(
                blo as int,
                bhi as int,
            )[k as int]);
            return false;
        }
        k = k + 1;
    }
    assert(a@.subrange(alo as int, ahi as int) =~= b@.subrange(blo as int, bhi as int));
    true
}

/// `path` relative to the working directory `cwd`, split on `separators` (see
/// [`relative_path`]).
#[verifier::loop_isolation(false)]
pub fn relative_to(path: &str, cwd: Option<&str>, separators: &[char]) -> (relative: String)
    ensures
        relative@ == relative_path(separators@, path@, dir_view(cwd)),
{
    let dir = match cwd {
        None => return String::from_str(path),
        Some(dir) => dir,
    };
    let p = chars_of(path);
    let b = chars_of(dir);
    let ghost seps = separators@;
    if b.len() == 0 {
        let h: usize = if separator_at(separators, &p, 0) || dot_component_at(separators, &p, 0) {
            1
        } else {
            0
        };
        let end = trim_end_within(separators, &p, h, p.len());
        return String::from_str(path.substring_char(0, end));
    }
    if separator_at(separators, &p, 0) != separator_at(separators, &b, 0) || dot_component_at(
        separators,
        &p,
        0,
    ) != dot_component_at(separators, &b, 0) {
        return String::from_str(path);
    }
    let mut i: usize = if separator_at(separators, &p, 0) || dot_component_at(separators, &p, 0) {
        1
    } else {
        0
    };
    let mut j: usize = if separator_at(separators, &b, 0) || dot_component_at(separators, &b, 0) {
        1
    } else {
        0
    };
    let ghost target = strip_from(seps, p@, i as int, b@, j as int);
    loop
        invariant
            i <= p@.len(),
            j <= b@.len(),
            strip_from(seps, p@, i as int, b@, j as int) == target,
        decreases p@.len() - i,
    {
        let i1 = skip_junk_from(separators, &p, i);
        let j1 = skip_junk_from(separators, &b, j);
        if j1 >= b.len() {
            i = i1;
            break;
        }
        if i1 >= p.len() {
            return String::from_str(path);
        }
        proof {
            lemma_skip_junk(seps, p@, i as int);
        }
        let pe = component_end_from(separators, &p, i1);
        let be = component_end_from(separators, &b, j1);
        if !same_text(&p, i1, pe, &b, j1, be) {
            return String::from_str(path);
        }
        proof {
            lemma_component_end(seps, p@, i1 as int);
        }
        i = pe;
        j = be;
    }
    let end = trim_end_within(separators, &p, i, p.len());
    String::from_str(path.substring_char(i, end))
}

/// A path as a baseline records it: relative to the working directory `cwd`
/// (see [`relative_path`]), with forward slashes.
pub fn normalize_path(path: &str, cwd: Option<&str>, separators: &[char]) -> (normalized: String)
    ensures
        normalized@ == normalize(relative_path(separators@, path@, dir_view(cwd))),
{
    let relative = relative_to(path, cwd, separators);
    forward_slashes(relative.as_str())
}

/// Scores accepted for existing code, keyed by file and qualified name.
#[derive(Debug)]
pub struct Baseline {
    version: u32,
    entries: Vec<BaselineEntry>,
}

impl View for Baseline {
    type V = BaselineView;

    closed spec fn view(&self) -> BaselineView {
        BaselineView { version: self.version, scores: scores_of(self.entries@) }
    }
}

impl Default for Baseline {
    fn default() -> (baseline: Self)
        ensures
            baseline@.version == FORMAT_VERSION,
            baseline@.scores == Map::<(Seq<char>, Seq<char>), u32>::empty(),
    {
        Baseline { version: FORMAT_VERSION, entries: Vec::new() }
    }
}

impl Baseline {
    #[verifier::type_invariant]
    closed spec fn wf(&self) -> bool {
        &&& self.version == FORMAT_VERSION
        &&& distinct_keys(self.entries@)
    }

    /// Records `score` for the function at (`path`, `name`), keeping the higher
    /// of it and any score recorded for that function before.
    fn record(entries: &mut Vec<BaselineEntry>, path: String, name: String, score: u32)
        requires
            distinct_keys(old(entries)@),
        ensures
            distinct_keys(final(entries)@),
            scores_of(final(entries)@) == keep_higher(scores_of(old(entries)@), (path@, name@), score),
    {
        let ghost start = entries@;
        proof {
            lemma_scores_of(start);
        }
        let mut j: usize = 0;
        while j < entries.len()
            invariant
                entries@ == start,
                old(entries)@ == start,
                distinct_keys(start),
                j <= entries@.len(),
                forall|a: int| 0 <= a < j ==> entry_key(#[trigger] entries@[a]) != (path@, name@),
                forall|k| #[trigger]
                    scores_of(start).contains_key(k) <==> exists|a: int|
                        0 <= a < start.len() && entry_key(start[a]) == k,
                forall|a: int|
                    0 <= a < start.len() ==> scores_of(start)[entry_key(#[trigger] start[a])]
                        == start[a].score,
            decreases entries@.len() - j,
        {
            if entries[j].path == path && entries[j].name == name {
                let ghost key = (path@, name@);
                assert(entry_key(entries@[j as int]) == key);
                if score > entries[j].score {
                    let entry = BaselineEntry { path, name, score };
                    assert(entry_key(entry) == key);
                    proof {
                        lemma_scores_of_update(entries@, j as int, entry);
                    }
                    entries.set(j, entry);
                    assert(entries@ == start.update(j as int, entry));
                }
                return;
            }
            j = j + 1;
        }
        assert(!scores_of(start).contains_key((path@, name@)));
        let entry = BaselineEntry { path, name, score };
        entries.push(entry);
        assert(entries@.drop_last() =~= start);
        assert(distinct_keys(entries@)) by {
            assert forall|a: int, b: int|
                0 <= a < b < entries@.len() implies entry_key(#[trigger] entries@[a]) != entry_key(
                #[trigger] entries@[b],
            ) by {
                if b == entries@.len() - 1 {
                    assert(entries@[a] == start[a]);
                } else {
                    assert(entries@[a] == start[a] && entries@[b] == start[b]);
                }
            }
        }
    }

    /// Records each finding's score under its file and qualified name; where a
    /// function occurs more than once, its highest score is kept, so every
    /// recorded finding is accepted.
    ///
    /// Each path is taken as already relative to the working directory, as
    /// [`normalize_path`] gives it; here only its backslashes become forward
    /// slashes.
    pub fn from_findings(findings: &[(String, Finding)]) -> (baseline: Self)
        ensures
            baseline@.version == FORMAT_VERSION,
            baseline@.scores == recorded(findings@),
    {
        let mut entries: Vec<BaselineEntry> = Vec::new();
        let mut k: usize = 0;
        while k < findings.len()
            invariant
                k <= findings@.len(),
                distinct_keys(entries@),
                scores_of(entries@) == recorded(findings@.take(k as int)),
            decreases findings@.len() - k,
        {
            let (path, finding) = &findings[k];
            let path = forward_slashes(path.as_str());
            let name = finding.qualified_name();
            assert(findings@.take(k + 1).drop_last() =~= findings@.take(k as int));
            Self::record(&mut entries, path, name, finding.score);
            k = k + 1;
        }
        assert(findings@.take(k as int) =~= findings@);
        Baseline { version: FORMAT_VERSION, entries }
    }

    /// Rebuilds a baseline from a recorded version and entries, as read back
    /// from storage; where a function has several entries, the highest score
    /// counts.
    ///
    /// # Errors
    ///
    /// The recorded version, where it is not [`FORMAT_VERSION`].
    pub fn from_parts(version: u32, entries: Vec<BaselineEntry>) -> (baseline: Result<Self, u32>)
        ensures
            match baseline {
                Ok(b) => loaded(version, entries@) == Ok::<BaselineView, u32>(b@),
                Err(v) => loaded(version, entries@) == Err::<BaselineView, u32>(v),
            },
    {
        if version != FORMAT_VERSION {
            return Err(version);
        }
        let mut kept: Vec<BaselineEntry> = Vec::new();
        let mut k: usize = 0;
        while k < entries.len()
            invariant
                k <= entries@.len(),
                distinct_keys(kept@),
                scores_of(kept@) == scores_of(entries@.take(k as int)),
            decreases entries@.len() - k,
        {
            let entry = &entries[k];
            assert(entries@.take(k + 1).drop_last() =~= entries@.take(k as int));
            Self::record(&mut kept, entry.path.clone(), entry.name.clone(), entry.score);
            k = k + 1;
        }
        assert(entries@.take(k as int) =~= entries@);
        Ok(Baseline { version, entries: kept })
    }

    /// The recorded format version.
    pub fn version(&self) -> (version: u32)
        ensures
            version == self@.version,
            version == FORMAT_VERSION,
    {
        proof {
            use_type_invariant(self);
        }
        self.version
    }

    /// The recorded entries, one per function.
    pub fn entries(&self) -> (entries: &Vec<BaselineEntry>)
        ensures
            scores_of(entries@) == self@.scores,
            distinct_keys(entries@),
    {
        proof {
            use_type_invariant(self);
        }
        &self.entries
    }

    /// A finding is a regression unless its function was recorded and its score
    /// is no worse than the recorded one. The identity is the function, not the
    /// file: a grandfathered file is no place for new complexity to hide.
    ///
    /// `path` is taken as already relative to the working directory, as
    /// [`normalize_path`] gives it; here only its backslashes become forward
    /// slashes.
    #[verifier::loop_isolation(false)]
    pub fn is_regression(&self, path: &str, finding: &Finding) -> (regression: bool)
        ensures
            regression == self@.is_regression(
                path@,
                spec_qualified_name(finding@.class, finding@.name),
                finding.score,
            ),
    {
        proof {
            use_type_invariant(self);
            lemma_scores_of(self.entries@);
        }
        let path = forward_slashes(path);
        let name = finding.qualified_name();
        let mut j: usize = 0;
        while j < self.entries.len()
            invariant
                distinct_keys(self.entries@),
                j <= self.entries@.len(),
                forall|a: int| 0 <= a < j ==> entry_key(#[trigger] self.entries@[a]) != (path@, name@),
            decreases self.entries@.len() - j,
        {
            let entry = &self.entries[j];
            if entry.path == path && entry.name == name {
                proof {
                    lemma_scores_of(self.entries@);
                }
                assert(entry_key(self.entries@[j as int]) == (path@, name@));
                return finding.score > entry.score;
            }
            j = j + 1;
        }
        proof {
            lemma_scores_of(self.entries@);
        }
        true
    }

    /// The number of recorded functions.
    pub fn len(&self) -> (count: usize)
        ensures
            count == self@.scores.len(),
    {
        proof {
            use_type_invariant(self);
            lemma_scores_of(self.entries@);
        }
        self.entries.len()
    }

    /// Whether nothing is recorded.
    pub fn is_empty(&self) -> (empty: bool)
        ensures
            empty == (self@.scores.len() == 0),
    {
        self.len() == 0
    }
}

/// A function recorded in a baseline is accepted at the score it was recorded
/// with: recording findings and then checking any one of them is no regression,
/// also where the same function was recorded more than once.
pub proof fn law_a_recorded_finding_is_accepted(findings: Seq<(String, Finding)>, k: int)
    requires
        0 <= k < findings.len(),
    ensures
        !(BaselineView { version: FORMAT_VERSION, scores: recorded(findings) }).is_regression(
            findings[k].0@,
            spec_qualified_name(findings[k].1@.class, findings[k].1@.name),
            findings[k].1.score,
        ),
{
    lemma_recorded_covers(findings);
    assert(finding_key(findings[k]) == (
        normalize(findings[k].0@),
        spec_qualified_name(findings[k].1@.class, findings[k].1@.name),
    ));
}

/// A function that is not recorded is a regression whatever its score: an
/// empty baseline accepts nothing, and a new function in a recorded file is
/// not covered by the file's other entries.
pub proof fn law_an_unrecorded_finding_is_a_regression(
    baseline: BaselineView,
    path: Seq<char>,
    name: Seq<char>,
    score: u32,
)
    requires
        !baseline.scores.contains_key((normalize(path), name)),
    ensures
        baseline.is_regression(path, name, score),
{
}

/// For a recorded function, a worse score is a regression and an equal or
/// better one is not.
pub proof fn law_only_a_worse_score_is_a_regression(
    baseline: BaselineView,
    path: Seq<char>,
    name: Seq<char>,
    score: u32,
)
    requires
        baseline.scores.contains_key((normalize(path), name)),
    ensures
        baseline.is_regression(path, name, score) <==> score > baseline.scores[(
            normalize(path),
            name,
        )],
{
}

/// Reading back the entries of a baseline gives the same baseline, so a round
/// trip through storage preserves every decision: each entry that was written,
/// one per function, is read back at exactly its score.
pub proof fn law_a_round_trip_preserves_the_baseline(entries: Seq<BaselineEntry>)
    requires
        distinct_keys(entries),
    ensures
        loaded(FORMAT_VERSION, entries) == Ok::<BaselineView, u32>(
            BaselineView { version: FORMAT_VERSION, scores: scores_of(entries) },
        ),
        scores_of(entries).len() == entries.len(),
        forall|a: int|
            0 <= a < entries.len() ==> scores_of(entries)[entry_key(#[trigger] entries[a])]
                == entries[a].score,
{
    lemma_scores_of(entries);
}

/// Each entry's key and score: what a list of entries says, whatever its order.
pub open spec fn recorded_pairs(entries: Seq<BaselineEntry>) -> Seq<((Seq<char>, Seq<char>), u32)> {
    entries.map_values(|e: BaselineEntry| (entry_key(e), e.score))
}

/// Storage may regroup the entries of a baseline; the order they come back in
/// does not matter. Two lists of entries, one per function each, that say the
/// same keys and scores record the same baseline.
pub proof fn law_the_order_of_entries_does_not_matter(a: Seq<BaselineEntry>, b: Seq<BaselineEntry>)
    requires
        distinct_keys(a),
        distinct_keys(b),
        forall|r| recorded_pairs(a).contains(r) <==> recorded_pairs(b).contains(r),
    ensures
        scores_of(a) == scores_of(b),
        loaded(FORMAT_VERSION, a) == loaded(FORMAT_VERSION, b),
{
    lemma_scores_of(a);
    lemma_scores_of(b);
    assert forall|k| #[trigger] scores_of(a).contains_key(k) implies scores_of(b).contains_key(k)
        && scores_of(b)[k] == scores_of(a)[k] by {
        let x = choose|x: int| 0 <= x < a.len() && entry_key(a[x]) == k;
        let r = (k, a[x].score);
        assert(recorded_pairs(a)[x] == r);
        assert(recorded_pairs(a).contains(r));
        let y = choose|y: int| 0 <= y < recorded_pairs(b).len() && recorded_pairs(b)[y] == r;
        assert(entry_key(b[y]) == k && b[y].score == a[x].score);
    }
    assert forall|k| #[trigger] scores_of(b).contains_key(k) implies scores_of(a).contains_key(k) by {
        let y = choose|y: int| 0 <= y < b.len() && entry_key(b[y]) == k;
        let r = (k, b[y].score);
        assert(recorded_pairs(b)[y] == r);
        assert(recorded_pairs(b).contains(r));
        let x = choose|x: int| 0 <= x < recorded_pairs(a).len() && recorded_pairs(a)[x] == r;
        assert(entry_key(a[x]) == k);
    }
    assert(scores_of(a) =~= scores_of(b));
}

/// A baseline counts each function once, so it never records more functions
/// than findings it was built from.
pub proof fn law_each_function_is_counted_once(findings: Seq<(String, Finding)>)
    ensures
        recorded(findings).dom().finite(),
        recorded(findings).len() <= findings.len(),
{
    lemma_recorded_covers(findings);
}

/// Below the working directory, components match the directory's own: past
/// positions inside the directory, a path that continues it with a separator
/// skips and splits exactly as the directory does.
proof fn lemma_continuation_agrees(seps: Seq<char>, p: Seq<char>, b: Seq<char>, k: int)
    requires
        p.len() > b.len(),
        p.subrange(0, b.len() as int) == b,
        seps.contains(p[b.len() as int]),
        0 <= k <= b.len(),
    ensures
        skip_junk(seps, b, k) < b.len() ==> skip_junk(seps, p, k) == skip_junk(seps, b, k),
        skip_junk(seps, b, k) >= b.len() ==> skip_junk(seps, p, k) == skip_junk(
            seps,
            p,
            b.len() as int,
        ),
        component_end(seps, p, k) == component_end(seps, b, k),
        is_separator(seps, p, k) == is_separator(seps, b, k) || k == b.len(),
        is_dot_component(seps, p, k) == is_dot_component(seps, b, k) || k == b.len(),
    decreases b.len() - k,
{
    if k < b.len() {
        assert(p[k] == p.subrange(0, b.len() as int)[k]);
        if k + 1 < b.len() {
            assert(p[k + 1] == p.subrange(0, b.len() as int)[k + 1]);
        }
        lemma_continuation_agrees(seps, p, b, k + 1);
    }
}

/// Stripping a directory off a path that continues it consumes exactly the
/// directory's components.
proof fn lemma_strip_continuation(seps: Seq<char>, p: Seq<char>, b: Seq<char>, k: int)
    requires
        p.len() > b.len(),
        p.subrange(0, b.len() as int) == b,
        seps.contains(p[b.len() as int]),
        0 <= k <= b.len(),
    ensures
        strip_from(seps, p, k, b, k) == Some(skip_junk(seps, p, b.len() as int)),
    decreases b.len() - k,
{
    lemma_continuation_agrees(seps, p, b, k);
    lemma_skip_junk(seps, b, k);
    let j1 = skip_junk(seps, b, k);
    if j1 < b.len() {
        lemma_skip_junk(seps, p, k);
        lemma_component_end(seps, b, j1);
        lemma_continuation_agrees(seps, p, b, j1);
        let be = component_end(seps, b, j1);
        assert(p.subrange(j1, be) =~= b.subrange(j1, be)) by {
            assert forall|t: int| 0 <= t < be - j1 implies p.subrange(j1, be)[t] == b.subrange(
                j1,
                be,
            )[t] by {
                assert(p[j1 + t] == p.subrange(0, b.len() as int)[j1 + t]);
            }
        }
        lemma_strip_continuation(seps, p, b, be);
    }
}

/// A file under the working directory is recorded by its path below it, so a
/// baseline written in one checkout matches in another: joining a directory
/// and a plain relative path with a separator, then stripping the directory,
/// gives the relative path back.
pub proof fn law_the_working_directory_is_stripped(
    seps: Seq<char>,
    dir: Seq<char>,
    sep: char,
    rest: Seq<char>,
)
    requires
        dir.len() > 0,
        seps.contains(sep),
        rest.len() > 0,
        !is_separator(seps, rest, 0),
        !is_dot_component(seps, rest, 0),
        !seps.contains(rest.last()),
        rest.last() != '.',
    ensures
        relative_path(seps, dir + seq![sep] + rest, Some(dir)) == rest,
{
    let p = dir + seq![sep] + rest;
    let n = dir.len() as int;
    assert(p.subrange(0, n) =~= dir);
    assert(p[n] == sep);
    lemma_continuation_agrees(seps, p, dir, 0);
    let h = head_len(seps, dir);
    assert(head_len(seps, p) == h);
    lemma_strip_continuation(seps, p, dir, h);
    assert(p[n + 1] == rest[0]);
    if rest.len() > 1 {
        assert(p[n + 2] == rest[1]);
    }
    assert(skip_junk(seps, p, n + 1) == n + 1);
    assert(skip_junk(seps, p, n) == n + 1);
    assert(p[p.len() - 1] == rest.last());
    assert(trim_end(seps, p, n + 1, p.len() as int) == p.len());
    assert(p.subrange(n + 1, p.len() as int) =~= rest);
}

/// A relative path does not depend on the working directory, which starts at
/// the root.
pub proof fn law_a_relative_path_is_left_alone(seps: Seq<char>, path: Seq<char>, dir: Seq<char>)
    requires
        is_separator(seps, dir, 0),
        !is_separator(seps, path, 0),
    ensures
        relative_path(seps, path, Some(dir)) == path,
{
}

/// A normalised path holds no backslash, and normalising it again changes
/// nothing.
pub proof fn law_normalized_paths_use_forward_slashes(path: Seq<char>)
    ensures
        !normalize(path).contains('\\'),
        normalize(normalize(path)) == normalize(path),
{
    assert(normalize(normalize(path)) =~= normalize(path));
}

} // verus!
