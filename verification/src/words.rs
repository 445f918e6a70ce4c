//! Corpus sampling: tokenizing source text and drawing a random word
//! window from it.
//!
//! Tokenization splits text into physical lines, truncates each line at
//! the first `//`, and splits what remains on whitespace runs. Directory
//! walking and file reading are the driver's business: it hands the path
//! listing and file contents in as plain values and runs the sampling
//! loop that `Sampler` decides.

use vstd::prelude::*;
use vstd::string::StrSliceExecFns;
use vstd::string::StringExecFns;

use crate::config::Config;
use crate::error::Error;

verus! {

/// The characters that count as whitespace when splitting tokens: the
/// Unicode white-space code points.
pub open spec fn is_space_char(c: char) -> bool {
    c == ' ' || c == '\t' || c == '\n' || c == '\r' || c == '\u{000b}' || c == '\u{000c}' || c
        == '\u{0085}' || c == '\u{00a0}' || c == '\u{1680}' || c == '\u{2000}' || c == '\u{2001}'
        || c == '\u{2002}' || c == '\u{2003}' || c == '\u{2004}' || c == '\u{2005}' || c
        == '\u{2006}' || c == '\u{2007}' || c == '\u{2008}' || c == '\u{2009}' || c == '\u{200a}'
        || c == '\u{2028}' || c == '\u{2029}' || c == '\u{202f}' || c == '\u{205f}' || c
        == '\u{3000}'
}

/// Executable whitespace test matching `is_space_char`.
fn is_space(c: char) -> (r: bool)
    ensures
        r == is_space_char(c),
{
    c == ' ' || c == '\t' || c == '\n' || c == '\r' || c == '\u{000b}' || c == '\u{000c}' || c
        == '\u{0085}' || c == '\u{00a0}' || c == '\u{1680}' || c == '\u{2000}' || c == '\u{2001}'
        || c == '\u{2002}' || c == '\u{2003}' || c == '\u{2004}' || c == '\u{2005}' || c
        == '\u{2006}' || c == '\u{2007}' || c == '\u{2008}' || c == '\u{2009}' || c == '\u{200a}'
        || c == '\u{2028}' || c == '\u{2029}' || c == '\u{202f}' || c == '\u{205f}' || c
        == '\u{3000}'
}

/// Number of characters before the first newline of `t` (the whole
/// length if there is none).
pub open spec fn line_len(t: Seq<char>) -> int
    decreases t.len(),
{
    if t.len() == 0 {
        0
    } else if t[0] == '\n' {
        0
    } else {
        1 + line_len(t.drop_first())
    }
}

proof fn lemma_line_len_bounds(t: Seq<char>)
    ensures
        0 <= line_len(t) <= t.len(),
    decreases t.len(),
{
    if t.len() != 0 && t[0] != '\n' {
        lemma_line_len_bounds(t.drop_first());
    }
}

/// `line_len` is the position of the first newline: no newline stands
/// before `l`, and `l` is either the end or a newline.
proof fn lemma_line_len_at(t: Seq<char>, l: int)
    requires
        0 <= l <= t.len(),
        forall|j: int| 0 <= j < l ==> t[j] != '\n',
        l == t.len() || t[l] == '\n',
    ensures
        line_len(t) == l,
    decreases l,
{
    if l == 0 {
    } else {
        assert(t[0] != '\n');
        assert(forall|j: int| 0 <= j < l - 1 ==> t.drop_first()[j] == t[j + 1]);
        lemma_line_len_at(t.drop_first(), l - 1);
    }
}

/// One line with everything from the first `//` on removed.
pub open spec fn strip_comment(line: Seq<char>) -> Seq<char>
    decreases line.len(),
{
    if line.len() < 2 {
        line
    } else if line[0] == '/' && line[1] == '/' {
        Seq::empty()
    } else {
        seq![line[0]] + strip_comment(line.drop_first())
    }
}

/// A line without a comment marker is left whole.
proof fn lemma_strip_comment_none(line: Seq<char>)
    requires
        forall|j: int| 0 <= j && j + 1 < line.len() ==> !(#[trigger] line[j] == '/' && line[j + 1] == '/'),
    ensures
        strip_comment(line) == line,
    decreases line.len(),
{
    if line.len() < 2 {
    } else {
        assert(!(line[0] == '/' && line[1] == '/'));
        assert(forall|j: int|
            0 <= j && j + 1 < line.drop_first().len() ==> !(#[trigger] line.drop_first()[j] == '/'
                && line.drop_first()[j + 1] == '/')) by {
            assert(forall|j: int|
                0 <= j && j + 1 < line.drop_first().len() ==> #[trigger] line.drop_first()[j]
                    == line[j + 1] && line.drop_first()[j + 1] == line[j + 2]);
        }
        lemma_strip_comment_none(line.drop_first());
        assert(seq![line[0]] + line.drop_first() =~= line);
    }
}

/// A line whose first comment marker stands at `p` is cut there.
proof fn lemma_strip_comment_at(line: Seq<char>, p: int)
    requires
        0 <= p,
        p + 1 < line.len(),
        line[p] == '/',
        line[p + 1] == '/',
        forall|j: int| 0 <= j < p ==> !(#[trigger] line[j] == '/' && line[j + 1] == '/'),
    ensures
        strip_comment(line) == line.take(p),
    decreases p,
{
    if p == 0 {
        assert(line.take(0) =~= Seq::<char>::empty());
    } else {
        assert(!(line[0] == '/' && line[1] == '/'));
        assert(forall|j: int| 0 <= j < line.drop_first().len() ==> line.drop_first()[j] == line[j
            + 1]);
        lemma_strip_comment_at(line.drop_first(), p - 1);
        assert(seq![line[0]] + line.drop_first().take(p - 1) =~= line.take(p));
    }
}

/// Length of the maximal run of non-whitespace characters of `s`
/// starting at position `i`.
pub open spec fn token_run(s: Seq<char>, i: int) -> int
    decreases s.len() - i,
{
    if i < 0 || i >= s.len() || is_space_char(s[i]) {
        0
    } else {
        1 + token_run(s, i + 1)
    }
}

proof fn lemma_token_run_bounds(s: Seq<char>, i: int)
    requires
        0 <= i <= s.len(),
    ensures
        0 <= token_run(s, i),
        i + token_run(s, i) <= s.len(),
    decreases s.len() - i,
{
    if i < s.len() && !is_space_char(s[i]) {
        lemma_token_run_bounds(s, i + 1);
    }
}

/// `token_run` reaches exactly the next whitespace character (or the
/// end).
proof fn lemma_token_run_at(s: Seq<char>, i: int, e: int)
    requires
        0 <= i <= e <= s.len(),
        forall|m: int| i <= m < e ==> !is_space_char(s[m]),
        e == s.len() || is_space_char(s[e]),
    ensures
        token_run(s, i) == e - i,
    decreases e - i,
{
    if i < e {
        lemma_token_run_at(s, i + 1, e);
    }
}

/// The whitespace-separated tokens of `s` from position `i` on, in
/// order, each a maximal non-whitespace run.
pub open spec fn tokens_from(s: Seq<char>, i: int) -> Seq<Seq<char>>
    decreases s.len() - i,
    via tokens_from_dec
{
    if i < 0 || i >= s.len() {
        Seq::empty()
    } else if is_space_char(s[i]) {
        tokens_from(s, i + 1)
    } else {
        seq![s.subrange(i, i + token_run(s, i))] + tokens_from(s, i + token_run(s, i))
    }
}

#[via_fn]
proof fn tokens_from_dec(s: Seq<char>, i: int) {
    if 0 <= i && i < s.len() && !is_space_char(s[i]) {
        lemma_token_run_bounds(s, i + 1);
    }
}

/// All whitespace-separated tokens of `s`.
pub open spec fn tokens_of(s: Seq<char>) -> Seq<Seq<char>> {
    tokens_from(s, 0)
}

/// The word corpus of a piece of source text: for each physical line,
/// everything from the first `//` on is removed, and what remains is
/// split on whitespace runs; token order follows the text.
pub open spec fn words_of_code(code: Seq<char>) -> Seq<Seq<char>>
    decreases code.len(),
    via words_of_code_dec
{
    let l = line_len(code);
    if l >= code.len() {
        tokens_of(strip_comment(code))
    } else {
        tokens_of(strip_comment(code.take(l))) + words_of_code(code.skip(l + 1))
    }
}

#[via_fn]
proof fn words_of_code_dec(code: Seq<char>) {
    lemma_line_len_bounds(code);
}

/// Splits source text into its word corpus: per line, a `//` comment
/// suffix is removed, and the rest is split on whitespace, preserving
/// order.
pub fn code_to_words(code: String) -> (r: Vec<String>)
    ensures
        r.deep_view() == words_of_code(code@),
{
    let s = code.as_str();
    let n = s.unicode_len();
    let ghost full = code@;
    let mut out: Vec<String> = Vec::new();
    let mut line_start: usize = 0;
    proof {
        assert(full.skip(0) =~= full);
        assert(out.deep_view() =~= Seq::<Seq<char>>::empty());
        assert(out.deep_view() + words_of_code(full) =~= words_of_code(full));
    }
    loop
        invariant_except_break
            line_start <= n,
            n == full.len(),
            s@ == full,
            words_of_code(full) =~= out.deep_view() + words_of_code(full.skip(line_start as int)),
        ensures
            out.deep_view() =~= words_of_code(full),
        decreases n - line_start,
    {
        let ghost rem = full.skip(line_start as int);
        // Find the end of the current line.
        let mut e = line_start;
        while e < n && s.get_char(e) != '\n'
            invariant
                line_start <= e <= n,
                n == full.len(),
                s@ == full,
                forall|j: int| line_start <= j < e ==> full[j] != '\n',
            decreases n - e,
        {
            e = e + 1;
        }
        proof {
            assert(forall|j: int| 0 <= j < e - line_start ==> rem[j] == full[line_start + j]);
            lemma_line_len_at(rem, e - line_start);
        }
        // Find the first comment marker of the line, if any.
        let mut cut = line_start;
        let mut found = false;
        while !found && cut < e
            invariant
                line_start <= cut <= e <= n,
                n == full.len(),
                s@ == full,
                found ==> cut + 1 < e && full[cut as int] == '/' && full[cut + 1] == '/',
                forall|j: int|
                    line_start <= j < cut ==> !(j + 1 < e && #[trigger] full[j] == '/' && full[j + 1] == '/'),
            decreases e - cut + (if found {
                0int
            } else {
                1int
            }),
        {
            if cut + 1 < e && s.get_char(cut) == '/' && s.get_char(cut + 1) == '/' {
                found = true;
            } else {
                cut = cut + 1;
            }
        }
        let ghost line = full.subrange(line_start as int, e as int);
        let ghost stripped = full.subrange(line_start as int, cut as int);
        proof {
            assert(forall|j: int| 0 <= j < line.len() ==> line[j] == full[line_start + j]);
            if found {
                lemma_strip_comment_at(line, cut - line_start);
                assert(line.take(cut - line_start) =~= stripped);
            } else {
                assert(cut == e);
                lemma_strip_comment_none(line);
                assert(line =~= stripped);
            }
            assert(strip_comment(line) == stripped);
        }
        // Collect the whitespace-separated tokens of the stripped line.
        let ghost base = out.deep_view();
        let mut j = line_start;
        while j < cut
            invariant
                line_start <= j <= cut <= e <= n,
                n == full.len(),
                s@ == full,
                stripped == full.subrange(line_start as int, cut as int),
                out.deep_view() + tokens_from(stripped, j - line_start) =~= base + tokens_from(
                    stripped,
                    0,
                ),
            decreases cut - j,
        {
            let c = s.get_char(j);
            proof {
                assert(stripped[j - line_start] == full[j as int]);
            }
            if is_space(c) {
                j = j + 1;
            } else {
                let mut k = j + 1;
                while k < cut && !is_space(s.get_char(k))
                    invariant
                        j < k <= cut <= n,
                        n == full.len(),
                        s@ == full,
                        stripped == full.subrange(line_start as int, cut as int),
                        line_start <= j,
                        forall|m: int| j <= m < k ==> !is_space_char(full[m]),
                    decreases cut - k,
                {
                    k = k + 1;
                }
                proof {
                    assert(forall|m: int|
                        j - line_start <= m < k - line_start ==> stripped[m] == full[line_start
                            + m]);
                    lemma_token_run_at(stripped, j - line_start, k - line_start);
                }
                let w = s.substring_char(j, k).to_owned();
                let ghost pre = out.deep_view();
                out.push(w);
                proof {
                    assert(out.deep_view() =~= pre.push(w@));
                    assert(w@ =~= stripped.subrange(j - line_start, k - line_start));
                    assert(tokens_from(stripped, j - line_start) == seq![
                        stripped.subrange(j - line_start, k - line_start),
                    ] + tokens_from(stripped, k - line_start));
                    assert(out.deep_view() + tokens_from(stripped, k - line_start) =~= pre + (seq![
                        stripped.subrange(j - line_start, k - line_start),
                    ] + tokens_from(stripped, k - line_start)));
                }
                j = k;
            }
        }
        proof {
            assert(tokens_from(stripped, cut - line_start) =~= Seq::<Seq<char>>::empty());
            assert(out.deep_view() =~= base + tokens_from(stripped, 0));
            if e < n {
                assert(line_len(rem) == e - line_start);
                assert(line_len(rem) < rem.len());
                assert(rem.take(e - line_start) =~= line);
                assert(rem.skip(e - line_start + 1) =~= full.skip(e + 1));
                assert(words_of_code(rem) == tokens_of(strip_comment(line)) + words_of_code(
                    full.skip(e + 1),
                ));
            } else {
                assert(line_len(rem) == rem.len());
                assert(rem =~= line);
                assert(words_of_code(rem) == tokens_of(strip_comment(line)));
                assert(words_of_code(rem) =~= tokens_from(stripped, 0));
            }
        }
        if e == n {
            proof {
                assert(out.deep_view() =~= words_of_code(full));
            }
            break ;
        }
        line_start = e + 1;
    }
    out
}

/// `s` cut to its first `m` characters (unchanged if already short
/// enough).
pub open spec fn truncated(s: Seq<char>, m: int) -> Seq<char> {
    if s.len() <= m {
        s
    } else {
        s.take(m)
    }
}

/// The extension filter argument with one leading dot removed, as the
/// caller may supply either form.
pub open spec fn strip_dot(ext: Seq<char>) -> Seq<char> {
    if ext.len() > 0 && ext[0] == '.' {
        ext.drop_first()
    } else {
        ext
    }
}

/// The final component of a `/`-separated path (empty if the path ends
/// in a separator).
pub open spec fn file_name_of(p: Seq<char>) -> Seq<char>
    decreases p.len(),
{
    if p.len() == 0 {
        Seq::empty()
    } else if p.last() == '/' {
        Seq::empty()
    } else {
        file_name_of(p.drop_last()).push(p.last())
    }
}

/// The extension of a file name: what follows the last `.`, provided
/// that dot is not the name's first character; `None` when there is no
/// such dot.
pub open spec fn extension_of(name: Seq<char>) -> Option<Seq<char>>
    decreases name.len(),
{
    if name.len() < 2 {
        None
    } else if name.last() == '.' {
        Some(Seq::empty())
    } else {
        match extension_of(name.drop_last()) {
            Some(e) => Some(e.push(name.last())),
            None => None,
        }
    }
}

/// One directory entry as the driver reports it: a path and whether it
/// is a regular file.
pub struct FileEntry {
    pub path: String,
    pub is_file: bool,
}

/// Whether an entry is a regular file whose extension equals `ext`.
pub open spec fn entry_matches(e: FileEntry, ext: Seq<char>) -> bool {
    e.is_file && extension_of(file_name_of(e.path@)) == Some(ext)
}

/// The paths of the matching entries, in order.
pub open spec fn matching_paths(entries: Seq<FileEntry>, ext: Seq<char>) -> Seq<Seq<char>>
    decreases entries.len(),
{
    if entries.len() == 0 {
        Seq::empty()
    } else {
        let rest = matching_paths(entries.drop_last(), ext);
        if entry_matches(entries.last(), ext) {
            rest.push(entries.last().path@)
        } else {
            rest
        }
    }
}

/// A file name's trailing run after its last slash.
proof fn lemma_file_name_at(p: Seq<char>, st: int)
    requires
        0 <= st <= p.len(),
        st == 0 || p[st - 1] == '/',
        forall|j: int| st <= j < p.len() ==> p[j] != '/',
    ensures
        file_name_of(p) == p.skip(st),
    decreases p.len(),
{
    if st == p.len() {
        if p.len() == 0 {
            assert(p.skip(st) =~= Seq::<char>::empty());
        } else {
            assert(p.last() == '/');
            assert(p.skip(st) =~= Seq::<char>::empty());
        }
    } else {
        assert(p.last() != '/');
        assert(forall|j: int| st <= j < p.drop_last().len() ==> p.drop_last()[j] == p[j]);
        lemma_file_name_at(p.drop_last(), st);
        assert(p.drop_last().skip(st).push(p.last()) =~= p.skip(st));
    }
}

/// A name with no dot past its first character has no extension.
proof fn lemma_extension_none(name: Seq<char>)
    requires
        forall|j: int| 1 <= j < name.len() ==> name[j] != '.',
    ensures
        extension_of(name) is None,
    decreases name.len(),
{
    if name.len() >= 2 {
        assert(name.last() != '.');
        assert(forall|j: int| 1 <= j < name.drop_last().len() ==> name.drop_last()[j] == name[j]);
        lemma_extension_none(name.drop_last());
    }
}

/// A name whose last dot stands at `d` (not first) has what follows it
/// as its extension.
proof fn lemma_extension_at(name: Seq<char>, d: int)
    requires
        1 <= d < name.len(),
        name[d] == '.',
        forall|j: int| d < j < name.len() ==> name[j] != '.',
    ensures
        extension_of(name) == Some(name.skip(d + 1)),
    decreases name.len(),
{
    if d == name.len() - 1 {
        assert(name.last() == '.');
        assert(name.skip(d + 1) =~= Seq::<char>::empty());
    } else {
        assert(name.last() != '.');
        assert(forall|j: int| 0 <= j < name.drop_last().len() ==> name.drop_last()[j] == name[j]);
        lemma_extension_at(name.drop_last(), d);
        assert(name.drop_last().skip(d + 1).push(name.last()) =~= name.skip(d + 1));
    }
}

/// The characters of the extension of `path`, if it has one.
fn path_extension_chars(path: &str) -> (r: Option<Vec<char>>)
    ensures
        match r {
            Some(v) => extension_of(file_name_of(path@)) == Some(v@),
            None => extension_of(file_name_of(path@)) is None,
        },
{
    let n = path.unicode_len();
    let mut name_start: usize = 0;
    let mut dot: Option<usize> = None;
    let mut i: usize = 0;
    while i < n
        invariant
            i <= n,
            n == path@.len(),
            name_start <= i,
            name_start == 0 || path@[name_start - 1] == '/',
            forall|j: int| name_start <= j < i ==> path@[j] != '/',
            match dot {
                Some(d) => name_start < d < i && path@[d as int] == '.' && (forall|j: int|
                    d < j < i ==> path@[j] != '.'),
                None => forall|j: int| name_start < j < i ==> path@[j] != '.',
            },
        decreases n - i,
    {
        let c = path.get_char(i);
        if c == '/' {
            name_start = i + 1;
            dot = None;
        } else if c == '.' && i > name_start {
            dot = Some(i);
        }
        i = i + 1;
    }
    proof {
        lemma_file_name_at(path@, name_start as int);
    }
    match dot {
        Some(d) => {
            let mut v: Vec<char> = Vec::new();
            let mut k = d + 1;
            while k < n
                invariant
                    d + 1 <= k <= n,
                    n == path@.len(),
                    v@ == path@.subrange(d + 1, k as int),
                decreases n - k,
            {
                let c = path.get_char(k);
                v.push(c);
                proof {
                    assert(path@.subrange(d + 1, k as int).push(path@[k as int]) =~= path@.subrange(
                        d + 1,
                        k + 1,
                    ));
                }
                k = k + 1;
            }
            proof {
                let name = path@.skip(name_start as int);
                assert(forall|j: int| 0 <= j < name.len() ==> name[j] == path@[name_start + j]);
                lemma_extension_at(name, d - name_start);
                assert(name.skip(d - name_start + 1) =~= path@.subrange(d + 1, n as int));
                assert(v@ =~= path@.subrange(d + 1, n as int));
            }
            Some(v)
        },
        None => {
            proof {
                let name = path@.skip(name_start as int);
                assert(forall|j: int| 0 <= j < name.len() ==> name[j] == path@[name_start + j]);
                lemma_extension_none(name);
            }
            None
        },
    }
}

/// The characters of a string, in order.
fn str_chars(s: &str) -> (r: Vec<char>)
    ensures
        r@ == s@,
{
    let n = s.unicode_len();
    let mut r: Vec<char> = Vec::new();
    let mut i: usize = 0;
    while i < n
        invariant
            i <= n,
            n == s@.len(),
            r@ == s@.take(i as int),
        decreases n - i,
    {
        let c = s.get_char(i);
        r.push(c);
        proof {
            assert(s@.take(i as int).push(s@[i as int]) =~= s@.take(i + 1));
        }
        i = i + 1;
    }
    proof {
        assert(s@.take(n as int) =~= s@);
    }
    r
}

/// Selects, from a directory listing, the regular files whose extension
/// equals `required_ext` (a leading dot on the filter is ignored),
/// preserving order.
pub fn find_files(entries: Vec<FileEntry>, required_ext: &str) -> (r: Vec<String>)
    ensures
        r.deep_view() == matching_paths(entries@, strip_dot(required_ext@)),
{
    let ghost ext = strip_dot(required_ext@);
    let stripped: Vec<char> = if required_ext.unicode_len() > 0 && required_ext.get_char(0) == '.' {
        let all = str_chars(required_ext);
        let mut rest: Vec<char> = Vec::new();
        let mut i: usize = 1;
        while i < all.len()
            invariant
                1 <= i <= all@.len(),
                rest@ == all@.subrange(1, i as int),
            decreases all@.len() - i,
        {
            let c = all[i];
            rest.push(c);
            proof {
                assert(all@.subrange(1, i as int).push(all@[i as int]) =~= all@.subrange(1, i + 1));
            }
            i = i + 1;
        }
        proof {
            assert(rest@ =~= required_ext@.drop_first());
        }
        rest
    } else {
        str_chars(required_ext)
    };
    assert(stripped@ == ext);
    let mut r: Vec<String> = Vec::new();
    let mut i: usize = 0;
    while i < entries.len()
        invariant
            i <= entries@.len(),
            stripped@ == ext,
            r.deep_view() == matching_paths(entries@.take(i as int), ext),
        decreases entries@.len() - i,
    {
        let e = &entries[i];
        let ghost pre = r.deep_view();
        if e.is_file {
            match path_extension_chars(e.path.as_str()) {
                Some(v) => {
                    if crate::gamestate::vec_chars_eq(&v, &stripped) {
                        let p = e.path.clone();
                        r.push(p);
                        proof {
                            assert(r.deep_view() =~= pre.push(entries@[i as int].path@));
                        }
                    }
                },
                None => {},
            }
        }
        proof {
            assert(entries@.take(i + 1).drop_last() =~= entries@.take(i as int));
            assert(entries@.take(i + 1).last() == entries@[i as int]);
        }
        i = i + 1;
    }
    proof {
        assert(entries@.take(entries@.len() as int) =~= entries@);
    }
    r
}

/// Relies on rand's `Rng::gen_range` called through `thread_rng`: for
/// the never-empty range `0..=max` it returns a value of that range, so
/// the result is at most `max`.
#[verifier::external_body]
fn random_index_up_to(max: usize) -> (r: usize)
    ensures
        r <= max,
{
    rand::Rng::gen_range(&mut rand::thread_rng(), 0..=max)
}

/// Draws a uniformly random contiguous window of exactly `word_count`
/// words. When the corpus has exactly `word_count` words, the one valid
/// window is the whole corpus, unchanged.
pub fn choose_words(words: Vec<String>, word_count: usize) -> (r: Vec<String>)
    requires
        word_count <= words@.len(),
    ensures
        r@.len() == word_count,
        exists|start: int|
            0 <= start && start + word_count <= words@.len() && r.deep_view()
                == #[trigger] words.deep_view().subrange(start, start + word_count),
        words@.len() == word_count ==> r.deep_view() == words.deep_view(),
{
    let max = words.len() - word_count;
    let to = random_index_up_to(max);
    let mut r: Vec<String> = Vec::new();
    let hi = to + word_count;
    let mut i = to;
    while i < hi
        invariant
            hi == to + word_count,
            to <= i <= to + word_count,
            to + word_count <= words@.len(),
            r.deep_view() == words.deep_view().subrange(to as int, i as int),
            r@.len() == i - to,
        decreases to + word_count - i,
    {
        let ghost pre = r.deep_view();
        let w = words[i].clone();
        r.push(w);
        proof {
            assert(r.deep_view() =~= pre.push(words@[i as int]@));
            assert(words.deep_view().subrange(to as int, i as int).push(
                words.deep_view()[i as int],
            ) =~= words.deep_view().subrange(to as int, i + 1));
            assert(words.deep_view()[i as int] == words@[i as int]@);
        }
        i = i + 1;
    }
    proof {
        assert(0 <= to as int && to as int + word_count <= words@.len() && r.deep_view()
            == words.deep_view().subrange(to as int, to as int + word_count));
        if words@.len() == word_count {
            assert(words.deep_view().subrange(0, word_count as int) =~= words.deep_view());
        }
    }
    r
}

/// The sampling loop's state: the candidate files not yet tried, and the
/// session's size constraints. The driver asks `pick` which file to read
/// next, reads it, and hands the content to `accept`; a `None` from
/// `pick` means every candidate was tried and sampling has failed with
/// too few words everywhere.
pub struct Sampler {
    /// Candidate files not yet tried.
    pub files: Vec<String>,
    /// How many words to draw; at least 1.
    pub word_count: usize,
    /// Character budget one file's content is truncated to.
    pub max_chars: usize,
}

impl Sampler {
    /// A sampler never asks for zero words.
    pub open spec fn wf(self) -> bool {
        self.word_count >= 1
    }

    /// Starts a sampling attempt over the given candidate files.
    /// Rejects a zero word count defensively and an empty candidate set
    /// with `NoFiles`.
    pub fn new(config: &Config, files: Vec<String>, max_chars: usize) -> (r: Result<
        Sampler,
        Error,
    >)
        ensures
            config.word_count == 0 ==> r == Err::<Sampler, Error>(Error::ZeroWordCount),
            config.word_count > 0 && files@.len() == 0 ==> r == Err::<Sampler, Error>(
                Error::NoFiles,
            ),
            config.word_count > 0 && files@.len() > 0 ==> r == Ok::<Sampler, Error>(
                Sampler { files, word_count: config.word_count, max_chars },
            ),
            r is Ok ==> r->Ok_0.wf(),
    {
        if config.word_count == 0 {
            Err(Error::ZeroWordCount)
        } else if files.len() == 0 {
            Err(Error::NoFiles)
        } else {
            Ok(Sampler { files, word_count: config.word_count, max_chars })
        }
    }

    /// Picks one not-yet-tried candidate uniformly at random and removes
    /// it; `None` once the candidates are exhausted.
    pub fn pick(&mut self) -> (r: Option<String>)
        ensures
            final(self).word_count == old(self).word_count,
            final(self).max_chars == old(self).max_chars,
            old(self).files@.len() == 0 ==> r is None && *final(self) == *old(self),
            old(self).files@.len() > 0 ==> match r {
                Some(p) => exists|i: int|
                    0 <= i < old(self).files@.len() && p == old(self).files@[i]
                        && final(self).files@ == #[trigger] old(self).files@.remove(i),
                None => false,
            },
    {
        if self.files.len() == 0 {
            return None;
        }
        let i = random_index_up_to(self.files.len() - 1);
        let p = self.files.remove(i);
        proof {
            assert((i as int) < old(self).files@.len() && p == old(self).files@[i as int]
                && self.files@ == old(self).files@.remove(i as int));
        }
        Some(p)
    }

    /// Judges one file's content: the content is truncated to the
    /// character budget and tokenized; if it yields enough words, a
    /// random window of exactly `word_count` of them is the sample, and
    /// otherwise the file is rejected.
    pub fn accept(&self, content: &str) -> (r: Option<Vec<String>>)
        requires
            self.wf(),
        ensures
            match r {
                Some(ws) => {
                    let toks = words_of_code(truncated(content@, self.max_chars as int));
                    &&& toks.len() >= self.word_count
                    &&& ws@.len() == self.word_count
                    &&& exists|start: int|
                        0 <= start && start + self.word_count <= toks.len() && ws.deep_view()
                            == #[trigger] toks.subrange(start, start + self.word_count)
                    &&& toks.len() == self.word_count ==> ws.deep_view() == toks
                },
                None => words_of_code(truncated(content@, self.max_chars as int)).len()
                    < self.word_count,
            },
    {
        let n = content.unicode_len();
        let code: String = if n > self.max_chars {
            content.substring_char(0, self.max_chars).to_owned()
        } else {
            content.to_owned()
        };
        proof {
            assert(code@ == truncated(content@, self.max_chars as int));
        }
        let ws = code_to_words(code);
        if ws.len() < self.word_count {
            None
        } else {
            let chosen = choose_words(ws, self.word_count);
            Some(chosen)
        }
    }
}

} // verus!
