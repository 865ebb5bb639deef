//! Blame-output interpretation: scans the raw line-oriented text of one
//! history-attribution query for the author timestamp and the
//! previous-revision marker, and builds one [`AgeRecord`] from it.

use vstd::prelude::*;
use vstd::string::*;
use crate::bytes::{starts_with, starts_with_bytes, bytes_subrange};
use crate::record::{AgeRecord, MAX_AUTHOR_TIME, valid_elapsed};

verus! {

broadcast use vstd::string::group_string_axioms;

/// Why a blame output could not be interpreted.
#[derive(Debug)]
pub enum BlameParseError {
    /// No author-time line occurred anywhere in the text.
    AuthorTimeNotFound,
    /// An author-time line's final field was not a usable timestamp;
    /// the offending raw line is carried for reporting.
    MalformedAuthorTime { line: Vec<u8> },
}

// --- line decomposition -----------------------------------------------------

/// Index of the first line feed in `t`, or `t.len()` if there is none.
pub open spec fn first_nl(t: Seq<u8>) -> nat
    decreases t.len(),
{
    if t.len() == 0 {
        0
    } else if t[0] == 10 {
        0
    } else {
        1 + first_nl(t.skip(1))
    }
}

/// Drops one carriage return from the end of a line split off at a line feed.
pub open spec fn strip_cr(l: Seq<u8>) -> Seq<u8> {
    if l.len() > 0 && l.last() == 13 {
        l.drop_last()
    } else {
        l
    }
}

/// The lines of `t`: split at each line feed, one trailing carriage return
/// removed from each piece that ended in a line feed, and no empty final
/// piece after a terminating line feed.
pub open spec fn line_seqs(t: Seq<u8>) -> Seq<Seq<u8>>
    decreases t.len(),
{
    if t.len() == 0 {
        Seq::empty()
    } else {
        let i = first_nl(t) as int;
        if i < t.len() {
            seq![strip_cr(t.take(i))] + line_seqs(t.skip(i + 1))
        } else {
            seq![t]
        }
    }
}

proof fn lemma_first_nl_at(t: Seq<u8>, k: int)
    requires
        0 <= k <= t.len(),
        forall|j: int| 0 <= j < k ==> t[j] != 10,
        k < t.len() ==> t[k] == 10,
    ensures
        first_nl(t) == k,
    decreases k,
{
    if t.len() == 0 {
    } else if t[0] == 10 {
        assert(k == 0);
    } else {
        assert(k >= 1);
        lemma_first_nl_at(t.skip(1), k - 1);
    }
}

// --- line classification ----------------------------------------------------

/// The fixed marker that opens an author-timestamp line.
pub open spec fn author_marker() -> Seq<u8> {
    "author-time".spec_bytes()
}

/// The fixed marker that opens a previous-revision line.
pub open spec fn previous_marker() -> Seq<u8> {
    "previous".spec_bytes()
}

pub open spec fn is_author_line(l: Seq<u8>) -> bool {
    starts_with(l, author_marker())
}

pub open spec fn is_previous_line(l: Seq<u8>) -> bool {
    starts_with(l, previous_marker())
}

// --- final-field extraction and integer parsing ------------------------------

/// ASCII whitespace, as the final-field split understands it.
pub open spec fn is_ws(b: u8) -> bool {
    b == 32 || b == 9 || b == 10 || b == 12 || b == 13
}

pub open spec fn is_digit(b: u8) -> bool {
    48 <= b <= 57
}

/// `l` with trailing whitespace removed.
pub open spec fn trim_ws(l: Seq<u8>) -> Seq<u8>
    decreases l.len(),
{
    if l.len() > 0 && is_ws(l.last()) {
        trim_ws(l.drop_last())
    } else {
        l
    }
}

/// The maximal run of non-whitespace bytes at the end of `l`.
pub open spec fn token_suffix(l: Seq<u8>) -> Seq<u8>
    decreases l.len(),
{
    if l.len() == 0 || is_ws(l.last()) {
        Seq::empty()
    } else {
        token_suffix(l.drop_last()).push(l.last())
    }
}

/// The final whitespace-separated field of `l` (empty if `l` is all whitespace).
pub open spec fn last_token(l: Seq<u8>) -> Seq<u8> {
    token_suffix(trim_ws(l))
}

pub open spec fn all_digits(s: Seq<u8>) -> bool {
    forall|i: int| 0 <= i < s.len() ==> is_digit(s[i])
}

/// Value of a base-10 digit string.
pub open spec fn digits_val(s: Seq<u8>) -> int
    decreases s.len(),
{
    if s.len() == 0 {
        0
    } else {
        digits_val(s.drop_last()) * 10 + (s.last() - 48)
    }
}

/// A base-10 integer, optionally preceded by a minus sign; `None` on any
/// other shape.
pub open spec fn parse_int(tok: Seq<u8>) -> Option<int> {
    if tok.len() > 0 && tok[0] == 45 {
        if tok.len() > 1 && all_digits(tok.skip(1)) {
            Some(-digits_val(tok.skip(1)))
        } else {
            None
        }
    } else if tok.len() > 0 && all_digits(tok) {
        Some(digits_val(tok))
    } else {
        None
    }
}

/// The timestamp an author-time line carries: its final field read as a
/// base-10 integer, rejected when absent, malformed, or out of the supported
/// timestamp range.
pub open spec fn parse_author_time(l: Seq<u8>) -> Option<int> {
    match parse_int(last_token(l)) {
        Some(v) => if -MAX_AUTHOR_TIME <= v <= MAX_AUTHOR_TIME {
            Some(v)
        } else {
            None
        },
        None => None,
    }
}

// --- the scan over all lines -------------------------------------------------

/// Outcome of scanning blame output: the first malformed author-time line
/// wins; otherwise the last author-time value, with a flag for whether any
/// previous-revision line occurred.
pub enum ScanOutcome {
    Malformed(Seq<u8>),
    Found { time: int, previous: bool },
    NotFound { previous: bool },
}

pub open spec fn scan_prev(o: ScanOutcome) -> bool {
    match o {
        ScanOutcome::Malformed(_) => false,
        ScanOutcome::Found { previous, .. } => previous,
        ScanOutcome::NotFound { previous } => previous,
    }
}

pub open spec fn scan_lines(lines: Seq<Seq<u8>>) -> ScanOutcome
    decreases lines.len(),
{
    if lines.len() == 0 {
        ScanOutcome::NotFound { previous: false }
    } else {
        let init = scan_lines(lines.drop_last());
        let l = lines.last();
        match init {
            ScanOutcome::Malformed(m) => ScanOutcome::Malformed(m),
            _ => if is_author_line(l) {
                match parse_author_time(l) {
                    Some(v) => ScanOutcome::Found { time: v, previous: scan_prev(init) },
                    None => ScanOutcome::Malformed(l),
                }
            } else {
                let p = scan_prev(init) || is_previous_line(l);
                match init {
                    ScanOutcome::Found { time, .. } => ScanOutcome::Found {
                        time,
                        previous: p,
                    },
                    _ => ScanOutcome::NotFound { previous: p },
                }
            },
        }
    }
}

/// What interpreting raw blame text yields.
pub open spec fn blame_outcome(t: Seq<u8>) -> ScanOutcome {
    scan_lines(line_seqs(t))
}

// --- suffix stripping ---------------------------------------------------------

/// The on-disk storage suffix of a secret file.
pub open spec fn gpg_suffix() -> Seq<u8> {
    ".gpg".spec_bytes()
}

/// `name` with its storage suffix removed, if it carries one.
pub open spec fn strip_gpg_spec(name: Seq<u8>) -> Seq<u8> {
    if name.len() >= 4 && name.subrange(name.len() - 4, name.len() as int) =~= gpg_suffix() {
        name.take(name.len() - 4)
    } else {
        name
    }
}

proof fn lemma_gpg_suffix_len()
    ensures
        gpg_suffix().len() == 4,
{
    reveal_strlit(".gpg");
    assert(vstd::utf8::is_ascii_chars(".gpg"@));
    vstd::utf8::is_ascii_chars_encode_utf8(".gpg"@);
}

/// Removes the storage suffix from a file name, if present.
pub fn strip_gpg(name: &Vec<u8>) -> (r: Vec<u8>)
    ensures
        r@ == strip_gpg_spec(name@),
{
    proof {
        lemma_gpg_suffix_len();
    }
    let suf = ".gpg".as_bytes();
    let n = name.len();
    if n >= 4 {
        let mut j: usize = 0;
        let mut same = true;
        while j < 4
            invariant
                j <= 4,
                n == name@.len(),
                n >= 4,
                suf@ == gpg_suffix(),
                suf@.len() == 4,
                same == (forall|k: int| 0 <= k < j ==> name@[n - 4 + k] == suf@[k]),
            decreases 4 - j,
        {
            if *vstd::slice::slice_index_get(suf, j) != name[n - 4 + j] {
                same = false;
            }
            j = j + 1;
        }
        if same {
            assert(name@.subrange(n - 4, n as int) =~= gpg_suffix());
            return bytes_subrange(name, 0, n - 4);
        }
        assert(!(name@.subrange(n - 4, n as int) =~= gpg_suffix())) by {
            if name@.subrange(n - 4, n as int) =~= gpg_suffix() {
                assert forall|k: int| 0 <= k < 4 implies name@[n - 4 + k] == gpg_suffix()[k] by {
                    assert(name@.subrange(n - 4, n as int)[k] == name@[n - 4 + k]);
                }
            }
        }
    }
    assert(name@.subrange(0, n as int) =~= name@);
    bytes_subrange(name, 0, n)
}

// --- executable line splitting ------------------------------------------------

/// The byte-sequence views of a sequence of byte vectors.
spec fn views_of(r: Seq<Vec<u8>>) -> Seq<Seq<u8>> {
    Seq::new(r.len(), |k: int| r[k]@)
}

/// Splits raw text into its lines, exactly as [`line_seqs`] describes.
pub fn split_lines(t: &Vec<u8>) -> (r: Vec<Vec<u8>>)
    ensures
        r@.len() == line_seqs(t@).len(),
        forall|i: int| 0 <= i < r@.len() ==> r@[i]@ == line_seqs(t@)[i],
{
    let mut r: Vec<Vec<u8>> = Vec::new();
    let mut start: usize = 0;
    let mut i: usize = 0;
    proof {
        assert(t@.skip(0) =~= t@);
        assert(views_of(r@) + line_seqs(t@.skip(0)) =~~= line_seqs(t@));
    }
    while i < t.len()
        invariant
            start <= i <= t@.len(),
            forall|j: int| start <= j < i ==> t@[j] != 10,
            line_seqs(t@) == views_of(r@) + line_seqs(t@.skip(start as int)),
        decreases t@.len() - i,
    {
        if t[i] == 10 {
            let end = if i > start && t[i - 1] == 13 {
                i - 1
            } else {
                i
            };
            let line = bytes_subrange(t, start, end);
            proof {
                let rest = t@.skip(start as int);
                assert forall|j: int| 0 <= j < i - start implies rest[j] != 10 by {
                    assert(rest[j] == t@[start + j]);
                }
                assert(rest[i - start] == t@[i as int]);
                lemma_first_nl_at(rest, i - start);
                assert(rest.take(i - start) =~= t@.subrange(start as int, i as int));
                assert(strip_cr(t@.subrange(start as int, i as int)) =~= line@) by {
                    let raw = t@.subrange(start as int, i as int);
                    if i > start && t@[i - 1] == 13 {
                        assert(raw.last() == t@[i - 1]);
                        assert(raw.drop_last() =~= t@.subrange(start as int, i - 1));
                    }
                }
                assert(rest.skip(i - start + 1) =~= t@.skip(i + 1));
                assert(line_seqs(rest) =~~= seq![line@] + line_seqs(t@.skip(i + 1)));
                assert(views_of(r@.push(line)) =~~= views_of(r@) + seq![line@]);
                assert(views_of(r@) + (seq![line@] + line_seqs(t@.skip(i + 1))) =~~= (views_of(
                    r@,
                ) + seq![line@]) + line_seqs(t@.skip(i + 1)));
            }
            r.push(line);
            start = i + 1;
        }
        i = i + 1;
    }
    if start < t.len() {
        let line = bytes_subrange(t, start, t.len());
        proof {
            let rest = t@.skip(start as int);
            assert forall|j: int| 0 <= j < rest.len() implies rest[j] != 10 by {
                assert(rest[j] == t@[start + j]);
            }
            lemma_first_nl_at(rest, rest.len() as int);
            assert(rest.len() > 0);
            assert(line_seqs(rest) =~~= seq![rest]);
            assert(line@ =~= rest);
            assert(views_of(r@.push(line)) =~~= views_of(r@) + seq![line@]);
            assert(views_of(r@) + seq![rest] =~~= views_of(r@.push(line)));
        }
        r.push(line);
    } else {
        proof {
            assert(t@.skip(start as int).len() == 0);
            assert(line_seqs(t@.skip(start as int)) =~~= Seq::<Seq<u8>>::empty());
            assert(views_of(r@) + line_seqs(t@.skip(start as int)) =~~= views_of(r@));
        }
    }
    proof {
        assert forall|k: int| 0 <= k < r@.len() implies r@[k]@ == line_seqs(t@)[k] by {
            assert(views_of(r@)[k] == r@[k]@);
        }
    }
    r
}

// --- executable timestamp extraction -------------------------------------------

fn is_ws_byte(b: u8) -> (r: bool)
    ensures
        r == is_ws(b),
{
    b == 32 || b == 9 || b == 10 || b == 12 || b == 13
}

proof fn lemma_trim_at(l: Seq<u8>, hi: int)
    requires
        0 <= hi <= l.len(),
        forall|j: int| hi <= j < l.len() ==> is_ws(l[j]),
        hi > 0 ==> !is_ws(l[hi - 1]),
    ensures
        trim_ws(l) == l.take(hi),
    decreases l.len(),
{
    if hi == l.len() {
        assert(l.take(hi) =~= l);
    } else {
        assert(is_ws(l.last()));
        lemma_trim_at(l.drop_last(), hi);
        assert(l.drop_last().take(hi) =~= l.take(hi));
    }
}

proof fn lemma_token_at(l: Seq<u8>, lo: int, hi: int)
    requires
        0 <= lo <= hi <= l.len(),
        forall|j: int| lo <= j < hi ==> !is_ws(l[j]),
        lo > 0 ==> is_ws(l[lo - 1]),
    ensures
        token_suffix(l.take(hi)) == l.subrange(lo, hi),
    decreases hi,
{
    let pre = l.take(hi);
    if hi == lo {
        if hi > 0 {
            assert(pre.last() == l[hi - 1]);
            assert(is_ws(pre.last()));
        }
        assert(token_suffix(pre) =~= l.subrange(lo, hi));
    } else {
        assert(pre.last() == l[hi - 1]);
        assert(!is_ws(pre.last()));
        assert(pre.drop_last() =~= l.take(hi - 1));
        lemma_token_at(l, lo, hi - 1);
        assert(token_suffix(l.take(hi - 1)).push(l[hi - 1]) =~= l.subrange(lo, hi));
    }
}

proof fn lemma_digits_val_nonneg(s: Seq<u8>)
    requires
        all_digits(s),
    ensures
        digits_val(s) >= 0,
    decreases s.len(),
{
    if s.len() > 0 {
        assert(all_digits(s.drop_last()));
        lemma_digits_val_nonneg(s.drop_last());
    }
}

proof fn lemma_digits_val_monotone(s: Seq<u8>, k: int)
    requires
        all_digits(s),
        0 <= k <= s.len(),
    ensures
        digits_val(s.take(k)) <= digits_val(s),
    decreases s.len(),
{
    if k == s.len() {
        assert(s.take(k) =~= s);
    } else {
        assert(all_digits(s.drop_last()));
        assert(s.drop_last().take(k) =~= s.take(k));
        lemma_digits_val_monotone(s.drop_last(), k);
        lemma_digits_val_nonneg(s.drop_last());
    }
}

/// Reads the final whitespace-separated field of `l` as a timestamp,
/// exactly as [`parse_author_time`] describes.
fn parse_author_value(l: &Vec<u8>) -> (r: Option<i64>)
    ensures
        (r is Some) == (parse_author_time(l@) is Some),
        r matches Some(x) ==> parse_author_time(l@) == Some(x as int),
{
    let n = l.len();
    let mut hi: usize = n;
    loop
        invariant
            0 <= hi <= n,
            n == l@.len(),
            forall|j: int| hi <= j < n ==> is_ws(l@[j]),
        ensures
            0 <= hi <= n,
            forall|j: int| hi <= j < n ==> is_ws(l@[j]),
            hi > 0 ==> !is_ws(l@[hi - 1]),
        decreases hi,
    {
        if hi == 0 {
            break ;
        }
        if !is_ws_byte(l[hi - 1]) {
            break ;
        }
        hi = hi - 1;
    }
    let mut lo: usize = hi;
    loop
        invariant
            0 <= lo <= hi <= n,
            n == l@.len(),
            forall|j: int| lo <= j < hi ==> !is_ws(l@[j]),
        ensures
            0 <= lo <= hi,
            forall|j: int| lo <= j < hi ==> !is_ws(l@[j]),
            lo > 0 ==> is_ws(l@[lo - 1]),
        decreases lo,
    {
        if lo == 0 {
            break ;
        }
        if is_ws_byte(l[lo - 1]) {
            break ;
        }
        lo = lo - 1;
    }
    proof {
        lemma_trim_at(l@, hi as int);
        lemma_token_at(l@, lo as int, hi as int);
        assert(last_token(l@) == l@.subrange(lo as int, hi as int));
    }
    let ghost tok = l@.subrange(lo as int, hi as int);
    if lo == hi {
        assert(tok.len() == 0);
        return None;
    }
    let neg = l[lo] == 45;
    let dstart = if neg {
        lo + 1
    } else {
        lo
    };
    proof {
        assert(tok[0] == l@[lo as int]);
        if neg {
            assert(tok.skip(1) =~= l@.subrange(dstart as int, hi as int));
        } else {
            assert(tok =~= l@.subrange(dstart as int, hi as int));
        }
    }
    let ghost digs = l@.subrange(dstart as int, hi as int);
    if dstart == hi {
        assert(neg && tok.len() == 1);
        return None;
    }
    let mut acc: u64 = 0;
    let mut k: usize = dstart;
    proof {
        assert(digs.take(0) =~= Seq::<u8>::empty());
    }
    while k < hi
        invariant
            dstart <= k <= hi <= n,
            dstart < hi,
            n == l@.len(),
            last_token(l@) == tok,
            tok == l@.subrange(lo as int, hi as int),
            lo < hi,
            lo <= dstart,
            dstart as int == if neg { lo as int + 1 } else { lo as int },
            neg == (l@[lo as int] == 45),
            digs == l@.subrange(dstart as int, hi as int),
            digs == if neg { tok.skip(1) } else { tok },
            forall|j: int| dstart <= j < k ==> is_digit(l@[j]),
            acc as int == digits_val(digs.take(k - dstart)),
            acc <= 10 * (MAX_AUTHOR_TIME as u64) + 9,
        decreases hi - k,
    {
        let b = l[k];
        if b < 48 || b > 57 {
            proof {
                assert(digs[k - dstart] == l@[k as int]);
                assert(!is_digit(digs[k - dstart]));
                assert(!all_digits(digs));
                assert(parse_int(tok) is None);
            }
            return None;
        }
        if acc > (MAX_AUTHOR_TIME as u64) {
            proof {
                if all_digits(digs) {
                    lemma_digits_val_monotone(digs, k - dstart);
                    assert(digits_val(digs) > MAX_AUTHOR_TIME);
                    assert(parse_author_time(l@) is None);
                } else {
                    assert(parse_int(tok) is None);
                }
            }
            return None;
        }
        proof {
            let p = digs.take(k - dstart + 1);
            assert(p.drop_last() =~= digs.take(k - dstart));
            assert(p.last() == l@[k as int]);
        }
        acc = acc * 10 + ((b - 48) as u64);
        k = k + 1;
    }
    proof {
        assert(digs.take(hi - dstart) =~= digs);
        assert(all_digits(digs)) by {
            assert forall|j: int| 0 <= j < digs.len() implies is_digit(digs[j]) by {
                assert(digs[j] == l@[dstart + j]);
            }
        }
        if neg {
            assert(parse_int(tok) == Some(-digits_val(digs)));
        } else {
            assert(parse_int(tok) == Some(digits_val(digs)));
        }
    }
    if acc > (MAX_AUTHOR_TIME as u64) {
        return None;
    }
    let v = acc as i64;
    if neg {
        Some(-v)
    } else {
        Some(v)
    }
}

// --- the scan, executable ------------------------------------------------------

proof fn lemma_scan_malformed_persists(s: Seq<Seq<u8>>, k: int)
    requires
        0 <= k <= s.len(),
        scan_lines(s.take(k)) is Malformed,
    ensures
        scan_lines(s) == scan_lines(s.take(k)),
    decreases s.len() - k,
{
    if k == s.len() {
        assert(s.take(k) =~= s);
    } else {
        assert(s.take(k + 1).drop_last() =~= s.take(k));
        lemma_scan_malformed_persists(s, k + 1);
    }
}

proof fn lemma_scan_time_bounded(s: Seq<Seq<u8>>)
    ensures
        scan_lines(s) matches ScanOutcome::Found { time, .. } ==> -MAX_AUTHOR_TIME <= time
            <= MAX_AUTHOR_TIME,
    decreases s.len(),
{
    if s.len() > 0 {
        lemma_scan_time_bounded(s.drop_last());
    }
}

/// Interprets the raw output of one blame query.
///
/// `filename` is the caller-supplied identifier with its storage suffix still
/// attached; `now` is the moment of measurement in seconds since the epoch.
/// On success the record carries the stripped identifier, the elapsed age
/// `now - timestamp` (negative ages pass through unclamped), and whether a
/// previous-revision marker occurred anywhere in the text. Fails with
/// [`BlameParseError::AuthorTimeNotFound`] exactly when no author-time line
/// occurs, and with [`BlameParseError::MalformedAuthorTime`] naming the first
/// author-time line whose final field is not a usable timestamp.
pub fn parse_blame_output(text: &Vec<u8>, filename: &Vec<u8>, now: i64) -> (r: Result<
    AgeRecord,
    BlameParseError,
>)
    requires
        -MAX_AUTHOR_TIME <= now <= MAX_AUTHOR_TIME,
    ensures
        ({
            let o = blame_outcome(text@);
            match o {
                ScanOutcome::Found { time, previous } => r matches Ok(rec) && rec.path@
                    == strip_gpg_spec(filename@) && rec.elapsed == now - time && rec.has_history
                    == previous,
                ScanOutcome::NotFound { .. } => r matches Err(
                    BlameParseError::AuthorTimeNotFound,
                ),
                ScanOutcome::Malformed(m) => r matches Err(
                    BlameParseError::MalformedAuthorTime { line },
                ) && line@ == m,
            }
        }),
        r matches Ok(rec) ==> valid_elapsed(rec.elapsed),
{
    let lines = split_lines(text);
    let ghost ls = line_seqs(text@);
    let am = "author-time".as_bytes();
    let pm = "previous".as_bytes();
    let mut time: Option<i64> = None;
    let mut prev = false;
    let mut i: usize = 0;
    proof {
        assert(ls.take(0) =~= Seq::<Seq<u8>>::empty());
    }
    while i < lines.len()
        invariant
            i <= lines@.len(),
            lines@.len() == ls.len(),
            forall|j: int| 0 <= j < ls.len() ==> lines@[j]@ == ls[j],
            ls == line_seqs(text@),
            am@ == author_marker(),
            pm@ == previous_marker(),
            match scan_lines(ls.take(i as int)) {
                ScanOutcome::Malformed(_) => false,
                ScanOutcome::Found { time: v, previous: p } => time matches Some(x) && x as int
                    == v && prev == p,
                ScanOutcome::NotFound { previous: p } => time is None && prev == p,
            },
        decreases ls.len() - i,
    {
        let line: &Vec<u8> = &lines[i];
        proof {
            assert(ls.take(i + 1).drop_last() =~= ls.take(i as int));
            assert(ls.take(i + 1).last() == ls[i as int]);
        }
        if starts_with_bytes(line, am) {
            match parse_author_value(line) {
                Some(v) => {
                    time = Some(v);
                },
                None => {
                    proof {
                        assert(scan_lines(ls.take(i + 1)) == ScanOutcome::Malformed(line@));
                        lemma_scan_malformed_persists(ls, i + 1);
                    }
                    return Err(BlameParseError::MalformedAuthorTime { line: line.clone() });
                },
            }
        } else if starts_with_bytes(line, pm) {
            prev = true;
        }
        i = i + 1;
    }
    proof {
        assert(ls.take(ls.len() as int) =~= ls);
        lemma_scan_time_bounded(ls);
    }
    match time {
        Some(v) => {
            let path = strip_gpg(filename);
            Ok(AgeRecord { path, elapsed: now - v, has_history: prev })
        },
        None => Err(BlameParseError::AuthorTimeNotFound),
    }
}

// --- laws of the scan ------------------------------------------------------------

/// Text with exactly one author-time line, carrying timestamp `t`, and no
/// previous-revision line anywhere, scans to that timestamp with no history.
pub proof fn lemma_scan_single_author(lines: Seq<Seq<u8>>, i: int, t: int)
    requires
        0 <= i < lines.len(),
        is_author_line(lines[i]),
        parse_author_time(lines[i]) == Some(t),
        forall|j: int| 0 <= j < lines.len() && j != i ==> !is_author_line(lines[j]),
        forall|j: int| 0 <= j < lines.len() ==> !is_previous_line(lines[j]),
    ensures
        scan_lines(lines) == (ScanOutcome::Found { time: t, previous: false }),
    decreases lines.len(),
{
    let init = lines.drop_last();
    if i == lines.len() - 1 {
        lemma_scan_no_author(init);
    } else {
        lemma_scan_single_author(init, i, t);
    }
}

/// Text without any author-time line scans to "not found".
pub proof fn lemma_scan_no_author(lines: Seq<Seq<u8>>)
    requires
        forall|j: int| 0 <= j < lines.len() ==> !is_author_line(lines[j]),
    ensures
        scan_lines(lines) matches ScanOutcome::NotFound { previous } && previous == (exists|j: int|
            0 <= j < lines.len() && is_previous_line(lines[j])),
    decreases lines.len(),
{
    if lines.len() > 0 {
        let init = lines.drop_last();
        lemma_scan_no_author(init);
        if is_previous_line(lines.last()) {
            assert(is_previous_line(lines[lines.len() - 1]));
        } else {
            if exists|j: int| 0 <= j < lines.len() && is_previous_line(lines[j]) {
                let j = choose|j: int| 0 <= j < lines.len() && is_previous_line(lines[j]);
                assert(j != lines.len() - 1);
                assert(init[j] == lines[j]);
                assert(0 <= j < init.len() && is_previous_line(init[j]));
            } else {
                assert(forall|j: int| 0 <= j < init.len() ==> init[j] == lines[j]);
                assert(!(exists|j: int| 0 <= j < init.len() && is_previous_line(init[j])));
            }
        }
    }
}

/// Text with an author-time line (every one of them well formed) and a
/// previous-revision line scans to a record with history.
pub proof fn lemma_scan_previous_found(lines: Seq<Seq<u8>>)
    requires
        exists|i: int| 0 <= i < lines.len() && is_author_line(lines[i]),
        forall|i: int|
            0 <= i < lines.len() && is_author_line(lines[i]) ==> parse_author_time(lines[i])
                is Some,
        exists|j: int| 0 <= j < lines.len() && is_previous_line(lines[j]),
    ensures
        scan_lines(lines) matches ScanOutcome::Found { previous: true, .. },
    decreases lines.len(),
{
    lemma_scan_not_malformed(lines);
    lemma_scan_author_found(lines);
    lemma_scan_previous_flag(lines);
}

proof fn lemma_scan_not_malformed(lines: Seq<Seq<u8>>)
    requires
        forall|i: int|
            0 <= i < lines.len() && is_author_line(lines[i]) ==> parse_author_time(lines[i])
                is Some,
    ensures
        !(scan_lines(lines) is Malformed),
    decreases lines.len(),
{
    if lines.len() > 0 {
        lemma_scan_not_malformed(lines.drop_last());
    }
}

proof fn lemma_scan_author_found(lines: Seq<Seq<u8>>)
    requires
        exists|i: int| 0 <= i < lines.len() && is_author_line(lines[i]),
        forall|i: int|
            0 <= i < lines.len() && is_author_line(lines[i]) ==> parse_author_time(lines[i])
                is Some,
    ensures
        !(scan_lines(lines) is NotFound),
    decreases lines.len(),
{
    if lines.len() > 0 {
        lemma_scan_not_malformed(lines.drop_last());
        if is_author_line(lines.last()) {
        } else {
            let i = choose|i: int| 0 <= i < lines.len() && is_author_line(lines[i]);
            assert(0 <= i < lines.drop_last().len() && is_author_line(lines.drop_last()[i]));
            lemma_scan_author_found(lines.drop_last());
        }
    }
}

proof fn lemma_scan_previous_flag(lines: Seq<Seq<u8>>)
    requires
        exists|j: int| 0 <= j < lines.len() && is_previous_line(lines[j]),
        forall|i: int|
            0 <= i < lines.len() && is_author_line(lines[i]) ==> parse_author_time(lines[i])
                is Some,
    ensures
        scan_prev(scan_lines(lines)),
    decreases lines.len(),
{
    if lines.len() > 0 {
        lemma_scan_not_malformed(lines.drop_last());
        let j = choose|j: int| 0 <= j < lines.len() && is_previous_line(lines[j]);
        if j == lines.len() - 1 && !is_author_line(lines.last()) {
        } else {
            if j == lines.len() - 1 {
                assert(is_author_line(lines.last()) && is_previous_line(lines.last()));
                assert(false) by {
                    lemma_markers_disjoint(lines.last());
                }
            } else {
                assert(0 <= j < lines.drop_last().len() && is_previous_line(
                    lines.drop_last()[j],
                ));
                lemma_scan_previous_flag(lines.drop_last());
            }
        }
    }
}

proof fn lemma_markers_disjoint(l: Seq<u8>)
    ensures
        !(is_author_line(l) && is_previous_line(l)),
{
    reveal_strlit("author-time");
    reveal_strlit("previous");
    assert(vstd::utf8::is_ascii_chars("author-time"@));
    assert(vstd::utf8::is_ascii_chars("previous"@));
    vstd::utf8::is_ascii_chars_encode_utf8("author-time"@);
    vstd::utf8::is_ascii_chars_encode_utf8("previous"@);
    if is_author_line(l) && is_previous_line(l) {
        assert(l.subrange(0, author_marker().len() as int)[0] == l[0]);
        assert(l.subrange(0, previous_marker().len() as int)[0] == l[0]);
        assert(author_marker()[0] == 'a' as u8);
        assert(previous_marker()[0] == 'p' as u8);
    }
}

/// Text whose author-time lines include a malformed one scans to the
/// malformed outcome, naming an author-time line with an unusable final field.
pub proof fn lemma_scan_malformed_author(lines: Seq<Seq<u8>>)
    requires
        exists|i: int|
            0 <= i < lines.len() && is_author_line(lines[i]) && parse_author_time(lines[i])
                is None,
    ensures
        scan_lines(lines) matches ScanOutcome::Malformed(m) && is_author_line(m)
            && parse_author_time(m) is None,
    decreases lines.len(),
{
    if lines.len() > 0 {
        let init = lines.drop_last();
        if scan_lines(init) is Malformed {
            lemma_scan_was_malformed(init);
        } else {
            let i = choose|i: int|
                0 <= i < lines.len() && is_author_line(lines[i]) && parse_author_time(lines[i])
                    is None;
            if i < lines.len() - 1 {
                assert(0 <= i < init.len() && is_author_line(init[i]) && parse_author_time(init[i])
                    is None);
                lemma_scan_malformed_author(init);
            }
        }
    }
}

proof fn lemma_scan_was_malformed(lines: Seq<Seq<u8>>)
    requires
        scan_lines(lines) is Malformed,
    ensures
        scan_lines(lines) matches ScanOutcome::Malformed(m) && is_author_line(m)
            && parse_author_time(m) is None,
    decreases lines.len(),
{
    if lines.len() > 0 {
        if scan_lines(lines.drop_last()) is Malformed {
            lemma_scan_was_malformed(lines.drop_last());
        }
    }
}

} // verus!
