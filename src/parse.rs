//! The line-oriented parser that finds job definitions and the documentation
//! blocks attached to them.
use vstd::prelude::*;

use crate::job::{Job, JobView};
use crate::text::{chars_of, string_of};

verus! {

/// The parser's only failure: a line that should define a job has no colon.
/// It carries the offending line verbatim.
#[derive(Clone, Debug)]
pub enum ParseError {
    MalformedJobLine(String),
}

// ----- lines -----

/// Drops one carriage return that ends a line.
pub open spec fn strip_cr(l: Seq<char>) -> Seq<char> {
    if l.len() > 0 && l.last() == '\r' {
        l.drop_last()
    } else {
        l
    }
}

/// The lines completed so far and the line being read, after reading `s`.
pub open spec fn split_state(s: Seq<char>) -> (Seq<Seq<char>>, Seq<char>)
    decreases s.len(),
{
    if s.len() == 0 {
        (Seq::empty(), Seq::empty())
    } else {
        let (done, cur) = split_state(s.drop_last());
        if s.last() == '\n' {
            (done.push(strip_cr(cur)), Seq::empty())
        } else {
            (done, cur.push(s.last()))
        }
    }
}

/// The lines of a text: separated by `\n` or `\r\n`, without their
/// terminators; a final terminator is optional.
pub open spec fn lines_of(s: Seq<char>) -> Seq<Seq<char>> {
    let (done, cur) = split_state(s);
    if cur.len() > 0 {
        done.push(cur)
    } else {
        done
    }
}

// ----- line classification -----

/// What a line of a configuration document is to the parser.
pub enum LineKind {
    /// Starts with the marker `#= `: a line of documentation.
    Doc,
    /// Empty, the separator `---`, indented, or a plain comment.
    Ignored,
    /// Starts with a global keyword: a top-level entry that is no job.
    Keyword,
    /// Any other line: the definition of a job.
    Definition,
}

pub open spec fn starts_with(l: Seq<char>, p: Seq<char>) -> bool {
    p.len() <= l.len() && l.take(p.len() as int) == p
}

/// The reserved top-level keywords, in a fixed order.
pub open spec fn keyword(k: int) -> Seq<char> {
    if k == 0 {
        seq!['d', 'e', 'f', 'a', 'u', 'l', 't']
    } else if k == 1 {
        seq!['i', 'n', 'c', 'l', 'u', 'd', 'e']
    } else if k == 2 {
        seq!['s', 't', 'a', 'g', 'e', 's']
    } else if k == 3 {
        seq!['v', 'a', 'r', 'i', 'a', 'b', 'l', 'e', 's']
    } else {
        seq!['w', 'o', 'r', 'k', 'f', 'l', 'o', 'w']
    }
}

pub open spec fn is_keyword_line(l: Seq<char>) -> bool {
    exists|k: int| 0 <= k < 5 && #[trigger] starts_with(l, keyword(k))
}

pub open spec fn is_doc_line(l: Seq<char>) -> bool {
    starts_with(l, seq!['#', '=', ' '])
}

pub open spec fn is_ignored_line(l: Seq<char>) -> bool {
    l.len() == 0 || l == seq!['-', '-', '-'] || l[0] == ' ' || l[0] == '#'
}

pub open spec fn line_kind(l: Seq<char>) -> LineKind {
    if is_doc_line(l) {
        LineKind::Doc
    } else if is_ignored_line(l) {
        LineKind::Ignored
    } else if is_keyword_line(l) {
        LineKind::Keyword
    } else {
        LineKind::Definition
    }
}

/// The index of the last colon of a line, if it has one.
pub open spec fn last_colon(l: Seq<char>) -> Option<int>
    decreases l.len(),
{
    if l.len() == 0 {
        None
    } else if l.last() == ':' {
        Some(l.len() - 1)
    } else {
        last_colon(l.drop_last())
    }
}

/// A line that must define a job but has no colon.
pub open spec fn is_malformed(l: Seq<char>) -> bool {
    line_kind(l) == LineKind::Definition && last_colon(l) is None
}

// ----- the scan -----

/// The parser's state between lines: the jobs found, the pending
/// documentation block (joined with newlines; `None` when no line is
/// pending), and the first malformed line, if any.
pub struct ScanState {
    pub jobs: Seq<JobView>,
    pub pending: Option<Seq<char>>,
    pub error: Option<Seq<char>>,
}

pub open spec fn initial_state() -> ScanState {
    ScanState { jobs: Seq::empty(), pending: None, error: None }
}

/// Appends one documentation line to the pending block.
pub open spec fn extend_doc(pending: Option<Seq<char>>, text: Seq<char>) -> Seq<char> {
    match pending {
        Some(p) => p + seq!['\n'] + text,
        None => text,
    }
}

/// The effect of one line on the parser's state.
pub open spec fn scan_line(st: ScanState, l: Seq<char>) -> ScanState {
    if st.error is Some {
        st
    } else {
        match line_kind(l) {
            LineKind::Doc => ScanState { pending: Some(extend_doc(st.pending, l.skip(3))), ..st },
            LineKind::Ignored => st,
            LineKind::Keyword => ScanState { pending: None, ..st },
            LineKind::Definition => match last_colon(l) {
                Some(k) => ScanState {
                    jobs: st.jobs.push(JobView { name: l.take(k), doc: st.pending }),
                    pending: None,
                    error: None,
                },
                None => ScanState { error: Some(l), ..st },
            },
        }
    }
}

/// The parser's state after the given lines.
pub open spec fn scan(lines: Seq<Seq<char>>) -> ScanState
    decreases lines.len(),
{
    if lines.len() == 0 {
        initial_state()
    } else {
        scan_line(scan(lines.drop_last()), lines.last())
    }
}

/// What parsing a document yields: its jobs in order, or the first malformed
/// line.
pub open spec fn parse_result(s: Seq<char>) -> Result<Seq<JobView>, Seq<char>> {
    let st = scan(lines_of(s));
    match st.error {
        Some(l) => Err(l),
        None => Ok(st.jobs),
    }
}

pub open spec fn views(v: Seq<Job>) -> Seq<JobView> {
    v.map_values(|j: Job| j@)
}

pub open spec fn opt_view(p: Option<Vec<char>>) -> Option<Seq<char>> {
    match p {
        Some(v) => Some(v@),
        None => None,
    }
}


// ----- facts about the scan -----

proof fn lemma_split_prefix(s: Seq<char>, j: int)
    requires
        0 <= j <= s.len(),
    ensures
        split_state(s.take(j)).0.len() <= split_state(s).0.len(),
        split_state(s).0.take(split_state(s.take(j)).0.len() as int) == split_state(s.take(j)).0,
    decreases s.len(),
{
    let a = split_state(s.take(j)).0;
    if j == s.len() {
        assert(s.take(j) =~= s);
        assert(split_state(s).0.take(a.len() as int) =~= a);
    } else {
        assert(s.take(j) =~= s.drop_last().take(j));
        lemma_split_prefix(s.drop_last(), j);
        let b = split_state(s.drop_last()).0;
        assert(split_state(s).0.take(b.len() as int) =~= b);
        assert(split_state(s).0.take(a.len() as int) =~= b.take(a.len() as int));
    }
}

/// Once a malformed line is met, later lines change nothing.
proof fn lemma_scan_error_stays(a: Seq<Seq<char>>, b: Seq<Seq<char>>)
    requires
        a.len() <= b.len(),
        b.take(a.len() as int) == a,
        scan(a).error is Some,
    ensures
        scan(b) == scan(a),
    decreases b.len(),
{
    if b.len() > a.len() {
        assert(b.drop_last().take(a.len() as int) =~= a);
        lemma_scan_error_stays(a, b.drop_last());
    } else {
        assert(b =~= a);
    }
}

proof fn lemma_error_persists(s: Seq<char>, j: int)
    requires
        0 <= j <= s.len(),
        scan(split_state(s.take(j)).0).error is Some,
    ensures
        scan(lines_of(s)) == scan(split_state(s.take(j)).0),
{
    let a = split_state(s.take(j)).0;
    let d = split_state(s).0;
    lemma_split_prefix(s, j);
    let l = lines_of(s);
    assert(l.take(d.len() as int) =~= d);
    assert(l.take(a.len() as int) =~= d.take(a.len() as int));
    lemma_scan_error_stays(a, l);
}

/// The scan fails exactly when some line is malformed, and then it names the
/// first malformed line.
pub proof fn lemma_scan_error(lines: Seq<Seq<char>>)
    ensures
        scan(lines).error is None <==> forall|k: int| 0 <= k < lines.len() ==> !is_malformed(#[trigger] lines[k]),
        scan(lines).error is Some ==> exists|j: int|
            0 <= j < lines.len() && scan(lines).error == Some(lines[j]) && is_malformed(#[trigger] lines[j])
                && forall|k: int| 0 <= k < j ==> !is_malformed(#[trigger] lines[k]),
    decreases lines.len(),
{
    if lines.len() > 0 {
        let prev = lines.drop_last();
        lemma_scan_error(prev);
        let last = lines.len() - 1;
        assert(forall|k: int| 0 <= k < last ==> lines[k] == prev[k]);
        if scan(prev).error is Some {
            let j = choose|j: int|
                0 <= j < prev.len() && scan(prev).error == Some(prev[j]) && is_malformed(#[trigger] prev[j])
                    && forall|k: int| 0 <= k < j ==> !is_malformed(#[trigger] prev[k]);
            assert(lines[j] == prev[j]);
            assert(!is_malformed(prev[j]) ==> false);
        } else if is_malformed(lines[last]) {
            assert(scan(lines).error == Some(lines[last]));
        }
    }
}

/// Every line that should define a job but has no colon makes the parse of
/// its document fail, naming that line or an earlier malformed one: the
/// first malformed line of the document.
pub proof fn lemma_malformed_line_fails(s: Seq<char>, i: int)
    requires
        0 <= i < lines_of(s).len(),
        is_malformed(lines_of(s)[i]),
    ensures
        exists|j: int|
            0 <= j <= i && parse_result(s) == Err::<Seq<JobView>, Seq<char>>(lines_of(s)[j])
                && is_malformed(#[trigger] lines_of(s)[j])
                && forall|k: int| 0 <= k < j ==> !is_malformed(#[trigger] lines_of(s)[k]),
{
    let lines = lines_of(s);
    lemma_scan_error(lines);
    assert(!is_malformed(lines[i]) ==> false);
    let j = choose|j: int|
        0 <= j < lines.len() && scan(lines).error == Some(lines[j]) && is_malformed(#[trigger] lines[j])
            && forall|k: int| 0 <= k < j ==> !is_malformed(#[trigger] lines[k]);
    if j > i {
        assert(!is_malformed(lines[i]));
    }
}

/// A document parses successfully exactly when none of its lines is malformed.
pub proof fn lemma_parse_succeeds_iff_well_formed(s: Seq<char>)
    ensures
        parse_result(s) is Ok <==> forall|k: int| 0 <= k < lines_of(s).len() ==> !is_malformed(#[trigger] lines_of(s)[k]),
{
    lemma_scan_error(lines_of(s));
}

proof fn lemma_pending_stays_clear(lines: Seq<Seq<char>>, i: int, j: int)
    requires
        0 <= i < j <= lines.len(),
        line_kind(lines[i]) == LineKind::Keyword,
        forall|k: int| i < k < j ==> line_kind(#[trigger] lines[k]) != LineKind::Doc,
    ensures
        scan(lines.take(j)).error is None ==> scan(lines.take(j)).pending is None,
    decreases j - i,
{
    assert(lines.take(j).drop_last() =~= lines.take(j - 1));
    if j > i + 1 {
        lemma_pending_stays_clear(lines, i, j - 1);
        assert(line_kind(lines[j - 1]) != LineKind::Doc);
    }
}

/// A global-keyword line discards the pending documentation block: when no
/// documentation line stands between it and the next job definition, that job
/// is emitted undocumented.
pub proof fn lemma_keyword_discards_doc(lines: Seq<Seq<char>>, i: int, j: int, c: int)
    requires
        0 <= i < j < lines.len(),
        line_kind(lines[i]) == LineKind::Keyword,
        forall|k: int| i < k < j ==> line_kind(#[trigger] lines[k]) != LineKind::Doc,
        line_kind(lines[j]) == LineKind::Definition,
        last_colon(lines[j]) == Some(c),
        scan(lines.take(j)).error is None,
    ensures
        scan(lines.take(j + 1)).pending is None,
        scan(lines.take(j + 1)).jobs == scan(lines.take(j)).jobs.push(
            JobView { name: lines[j].take(c), doc: None },
        ),
{
    lemma_pending_stays_clear(lines, i, j);
    assert(lines.take(j + 1).drop_last() =~= lines.take(j));
}

// ----- executable parser -----

/// The characters of `v` from `lo` up to `hi`.
fn copy_range(v: &Vec<char>, lo: usize, hi: usize) -> (r: Vec<char>)
    requires
        lo <= hi <= v.len(),
    ensures
        r@ == v@.subrange(lo as int, hi as int),
{
    let mut r: Vec<char> = Vec::new();
    let mut i: usize = lo;
    while i < hi
        invariant
            lo <= i <= hi <= v.len(),
            r@ == v@.subrange(lo as int, i as int),
        decreases hi - i,
    {
        r.push(v[i]);
        i = i + 1;
        assert(r@ =~= v@.subrange(lo as int, i as int));
    }
    r
}

fn has_prefix(l: &Vec<char>, p: &Vec<char>) -> (r: bool)
    ensures
        r == starts_with(l@, p@),
{
    if p.len() > l.len() {
        return false;
    }
    let mut i: usize = 0;
    while i < p.len()
        invariant
            p.len() <= l.len(),
            i <= p.len(),
            forall|j: int| 0 <= j < i ==> l@[j] == p@[j],
        decreases p.len() - i,
    {
        if l[i] != p[i] {
            assert(l@.take(p.len() as int)[i as int] != p@[i as int]);
            return false;
        }
        i = i + 1;
    }
    assert(l@.take(p.len() as int) =~= p@);
    true
}

fn keyword_chars(k: usize) -> (r: Vec<char>)
    requires
        k < 5,
    ensures
        r@ == keyword(k as int),
{
    let r = if k == 0 {
        vec!['d', 'e', 'f', 'a', 'u', 'l', 't']
    } else if k == 1 {
        vec!['i', 'n', 'c', 'l', 'u', 'd', 'e']
    } else if k == 2 {
        vec!['s', 't', 'a', 'g', 'e', 's']
    } else if k == 3 {
        vec!['v', 'a', 'r', 'i', 'a', 'b', 'l', 'e', 's']
    } else {
        vec!['w', 'o', 'r', 'k', 'f', 'l', 'o', 'w']
    };
    assert(r@ =~= keyword(k as int));
    r
}

fn starts_with_keyword(l: &Vec<char>) -> (r: bool)
    ensures
        r == is_keyword_line(l@),
{
    let mut k: usize = 0;
    while k < 5
        invariant
            k <= 5,
            forall|j: int| 0 <= j < k ==> !starts_with(l@, #[trigger] keyword(j)),
        decreases 5 - k,
    {
        let kw = keyword_chars(k);
        if has_prefix(l, &kw) {
            return true;
        }
        k = k + 1;
    }
    false
}

fn classify(l: &Vec<char>) -> (r: LineKind)
    ensures
        r == line_kind(l@),
{
    let n = l.len();
    if n >= 3 && l[0] == '#' && l[1] == '=' && l[2] == ' ' {
        assert(l@.take(3) =~= seq!['#', '=', ' ']);
        return LineKind::Doc;
    }
    assert(!is_doc_line(l@)) by {
        if is_doc_line(l@) {
            assert(l@.take(3)[0] == '#' && l@.take(3)[1] == '=' && l@.take(3)[2] == ' ');
        }
    }
    let sep = n == 3 && l[0] == '-' && l[1] == '-' && l[2] == '-';
    if sep {
        assert(l@ =~= seq!['-', '-', '-']);
    }
    if n == 0 || sep || l[0] == ' ' || l[0] == '#' {
        return LineKind::Ignored;
    }
    assert(l@ != seq!['-', '-', '-']) by {
        if l@ == seq!['-', '-', '-'] {
            assert(l@[0] == '-' && l@[1] == '-' && l@[2] == '-');
        }
    }
    if starts_with_keyword(l) {
        LineKind::Keyword
    } else {
        LineKind::Definition
    }
}

fn find_last_colon(l: &Vec<char>) -> (r: Option<usize>)
    ensures
        match r {
            Some(k) => k < l.len() && last_colon(l@) == Some(k as int),
            None => last_colon(l@) is None,
        },
{
    let mut j: usize = l.len();
    assert(l@.take(j as int) =~= l@);
    while j > 0
        invariant
            j <= l.len(),
            last_colon(l@) == last_colon(l@.take(j as int)),
        decreases j,
    {
        if l[j - 1] == ':' {
            return Some(j - 1);
        }
        assert(l@.take(j as int).drop_last() =~= l@.take(j - 1));
        j = j - 1;
    }
    None
}

/// Applies one line to the parser's state held in `jobs` and `pending`.
fn scan_line_exec(l: &Vec<char>, jobs: &mut Vec<Job>, pending: &mut Option<Vec<char>>) -> (r: Result<(), ParseError>)
    ensures
        ({
            let st = scan_line(
                ScanState { jobs: views(old(jobs)@), pending: opt_view(*old(pending)), error: None },
                l@,
            );
            match r {
                Ok(_) => st.error is None && views(final(jobs)@) == st.jobs && opt_view(*final(pending)) == st.pending,
                Err(ParseError::MalformedJobLine(m)) => st.error == Some(m@),
            }
        }),
{
    match classify(l) {
        LineKind::Doc => {
            let text = copy_range(l, 3, l.len());
            assert(text@ =~= l@.skip(3));
            let mut buf: Vec<char> = match pending.take() {
                Some(mut p) => {
                    p.push('\n');
                    p
                },
                None => Vec::new(),
            };
            let ghost start = buf@;
            let mut i: usize = 0;
            while i < text.len()
                invariant
                    i <= text.len(),
                    buf@ == start + text@.take(i as int),
                decreases text.len() - i,
            {
                buf.push(text[i]);
                i = i + 1;
                assert(buf@ =~= start + text@.take(i as int));
            }
            assert(text@.take(text.len() as int) =~= text@);
            *pending = Some(buf);
            Ok(())
        },
        LineKind::Ignored => Ok(()),
        LineKind::Keyword => {
            *pending = None;
            Ok(())
        },
        LineKind::Definition => match find_last_colon(l) {
            Some(k) => {
                let name = string_of(&copy_range(l, 0, k));
                let doc = match pending.take() {
                    Some(p) => Some(string_of(&p)),
                    None => None,
                };
                let job = Job { name, doc };
                let ghost before = jobs@;
                jobs.push(job);
                assert(l@.subrange(0, k as int) =~= l@.take(k as int));
                assert(views(jobs@) =~= views(before).push(job@));
                Ok(())
            },
            None => Err(ParseError::MalformedJobLine(string_of(l))),
        },
    }
}

/// Parses one configuration document into its jobs, in order of definition,
/// or reports the first line that should define a job but has no colon.
pub fn parse_jobs(content: &str) -> (r: Result<Vec<Job>, ParseError>)
    ensures
        match r {
            Ok(jobs) => parse_result(content@) == Ok::<Seq<JobView>, Seq<char>>(views(jobs@)),
            Err(ParseError::MalformedJobLine(m)) => parse_result(content@) == Err::<Seq<JobView>, Seq<char>>(m@),
        },
{
    let cs = chars_of(content);
    let mut jobs: Vec<Job> = Vec::new();
    let mut pending: Option<Vec<char>> = None;
    let mut cur: Vec<char> = Vec::new();
    let mut i: usize = 0;
    assert(cs@.take(0) =~= Seq::<char>::empty());
    assert(views(jobs@) =~= Seq::<JobView>::empty());
    while i < cs.len()
        invariant
            cs@ == content@,
            i <= cs.len(),
            cur@ == split_state(cs@.take(i as int)).1,
            scan(split_state(cs@.take(i as int)).0) == (ScanState {
                jobs: views(jobs@),
                pending: opt_view(pending),
                error: None,
            }),
        decreases cs.len() - i,
    {
        let c = cs[i];
        let ghost prev = cs@.take(i as int);
        assert(cs@.take(i + 1).drop_last() =~= prev);
        if c == '\n' {
            let line = if cur.len() > 0 && cur[cur.len() - 1] == '\r' {
                copy_range(&cur, 0, cur.len() - 1)
            } else {
                copy_range(&cur, 0, cur.len())
            };
            assert(line@ =~= strip_cr(cur@));
            let ghost done = split_state(prev).0;
            assert(done.push(line@).drop_last() =~= done);
            assert(split_state(cs@.take(i + 1)).0 == done.push(line@));
            let ghost st0 = ScanState { jobs: views(jobs@), pending: opt_view(pending), error: None };
            assert(scan(done) == st0);
            match scan_line_exec(&line, &mut jobs, &mut pending) {
                Ok(_) => {},
                Err(e) => {
                    proof { lemma_error_persists(cs@, i + 1); }
                    match e {
                        ParseError::MalformedJobLine(m) => {
                            return Err(ParseError::MalformedJobLine(m));
                        },
                    }
                },
            }
            cur = Vec::new();
        } else {
            cur.push(c);
        }
        i = i + 1;
    }
    assert(cs@.take(cs.len() as int) =~= cs@);
    if cur.len() > 0 {
        let ghost done = split_state(cs@).0;
        assert(done.push(cur@).drop_last() =~= done);
        match scan_line_exec(&cur, &mut jobs, &mut pending) {
            Ok(_) => {},
            Err(e) => return Err(e),
        }
    }
    Ok(jobs)
}

} // verus!
