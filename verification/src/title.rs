use vstd::prelude::*;
use vstd::string::*;
use crate::text::views_of;

verus! {

/// A character with the Unicode white-space property: what trimming removes.
pub open spec fn is_space(c: char) -> bool {
    c == '\u{0009}' || c == '\u{000A}' || c == '\u{000B}' || c == '\u{000C}' || c == '\u{000D}'
        || c == '\u{0020}' || c == '\u{0085}' || c == '\u{00A0}' || c == '\u{1680}' || ('\u{2000}'
        <= c && c <= '\u{200A}') || c == '\u{2028}' || c == '\u{2029}' || c == '\u{202F}' || c
        == '\u{205F}' || c == '\u{3000}'
}

/// Tests the Unicode white-space property.
pub fn space_char(c: char) -> (r: bool)
    ensures
        r == is_space(c),
{
    c == '\u{0009}' || c == '\u{000A}' || c == '\u{000B}' || c == '\u{000C}' || c == '\u{000D}'
        || c == '\u{0020}' || c == '\u{0085}' || c == '\u{00A0}' || c == '\u{1680}' || ('\u{2000}'
        <= c && c <= '\u{200A}') || c == '\u{2028}' || c == '\u{2029}' || c == '\u{202F}' || c
        == '\u{205F}' || c == '\u{3000}'
}

/// The sequence with its leading white space removed.
pub open spec fn trim_front(s: Seq<char>) -> Seq<char>
    decreases s.len(),
{
    if s.len() == 0 {
        s
    } else if is_space(s[0]) {
        trim_front(s.skip(1))
    } else {
        s
    }
}

/// The sequence with its trailing white space removed.
pub open spec fn trim_back(s: Seq<char>) -> Seq<char>
    decreases s.len(),
{
    if s.len() == 0 {
        s
    } else if is_space(s[s.len() - 1]) {
        trim_back(s.take(s.len() - 1))
    } else {
        s
    }
}

/// The sequence with white space removed from both ends.
pub open spec fn trim_spec(s: Seq<char>) -> Seq<char> {
    trim_back(trim_front(s))
}

proof fn lemma_trim_front_at(s: Seq<char>, i: int)
    requires
        0 <= i <= s.len(),
        forall|k: int| 0 <= k < i ==> is_space(s[k]),
        i == s.len() || !is_space(s[i]),
    ensures
        trim_front(s) == s.skip(i),
    decreases i,
{
    if i == 0 {
        assert(s.skip(0) =~= s);
    } else {
        assert(is_space(s[0]));
        let t = s.skip(1);
        assert(forall|k: int| 0 <= k < i - 1 ==> t[k] == s[k + 1]);
        if i - 1 < t.len() {
            assert(t[i - 1] == s[i]);
        }
        lemma_trim_front_at(t, i - 1);
        assert(t.skip(i - 1) =~= s.skip(i));
    }
}

proof fn lemma_trim_back_at(s: Seq<char>, j: int)
    requires
        0 <= j <= s.len(),
        forall|k: int| j <= k < s.len() ==> is_space(s[k]),
        j == 0 || !is_space(s[j - 1]),
    ensures
        trim_back(s) == s.take(j),
    decreases s.len() - j,
{
    if j == s.len() {
        if s.len() == 0 {
            assert(s.take(0) =~= s);
        } else if is_space(s[s.len() - 1]) {
            assert(false);
        } else {
            assert(s.take(j) =~= s);
        }
    } else {
        assert(is_space(s[s.len() - 1]));
        let t = s.take(s.len() - 1);
        assert(forall|k: int| j <= k < t.len() ==> t[k] == s[k]);
        if j > 0 {
            assert(t[j - 1] == s[j - 1]);
        }
        lemma_trim_back_at(t, j);
        assert(t.take(j) =~= s.take(j));
    }
}

/// Removes leading and trailing white space.
pub fn trim_str(s: &str) -> (r: String)
    ensures
        r@ == trim_spec(s@),
{
    let n = s.unicode_len();
    let mut i: usize = 0;
    while i < n && space_char(s.get_char(i))
        invariant
            0 <= i <= n,
            n == s@.len(),
            forall|k: int| 0 <= k < i ==> is_space(s@[k]),
        decreases n - i,
    {
        i = i + 1;
    }
    proof {
        lemma_trim_front_at(s@, i as int);
    }
    let mut j: usize = n;
    while j > i && space_char(s.get_char(j - 1))
        invariant
            i <= j <= n,
            n == s@.len(),
            forall|k: int| j <= k < n ==> is_space(s@[k]),
        decreases j,
    {
        j = j - 1;
    }
    proof {
        let t = s@.skip(i as int);
        assert(forall|k: int| j - i <= k < t.len() ==> t[k] == s@[k + i]);
        if j > i {
            assert(t[j - i - 1] == s@[j - 1]);
        }
        lemma_trim_back_at(t, j - i);
        assert(t.take(j - i) =~= s@.subrange(i as int, j as int));
    }
    let r = s.substring_char(i, j);
    r.to_owned()
}

/// The index of the first '\n', or the length when there is none.
pub open spec fn first_newline(s: Seq<char>) -> int
    decreases s.len(),
{
    if s.len() == 0 {
        0
    } else if s[0] == '\n' {
        0
    } else {
        1 + first_newline(s.skip(1))
    }
}

proof fn lemma_first_newline_at(s: Seq<char>, i: int)
    requires
        0 <= i <= s.len(),
        forall|k: int| 0 <= k < i ==> s[k] != '\n',
        i == s.len() || s[i] == '\n',
    ensures
        first_newline(s) == i,
    decreases i,
{
    if i == 0 {
    } else {
        let t = s.skip(1);
        assert(forall|k: int| 0 <= k < i - 1 ==> t[k] == s[k + 1]);
        if i - 1 < t.len() {
            assert(t[i - 1] == s[i]);
        }
        lemma_first_newline_at(t, i - 1);
    }
}

/// A line split off at a '\n' loses one trailing '\r', as line splitting does.
pub open spec fn strip_cr(l: Seq<char>) -> Seq<char> {
    if l.len() > 0 && l[l.len() - 1] == '\r' {
        l.take(l.len() - 1)
    } else {
        l
    }
}

/// The lines of a text: segments split at '\n', each losing one trailing
/// '\r'; a final segment without a newline keeps its characters as they are,
/// and a trailing newline produces no empty final line.
pub proof fn lemma_first_newline_bounds(s: Seq<char>)
    ensures
        0 <= first_newline(s) <= s.len(),
    decreases s.len(),
{
    if s.len() > 0 && s[0] != '\n' {
        lemma_first_newline_bounds(s.skip(1));
    }
}

pub open spec fn lines_spec(s: Seq<char>) -> Seq<Seq<char>>
    decreases s.len(),
    via lines_spec_decreases
{
    if s.len() == 0 {
        Seq::empty()
    } else {
        let k = first_newline(s);
        if k == s.len() {
            seq![s]
        } else {
            seq![strip_cr(s.take(k))] + lines_spec(s.skip(k + 1))
        }
    }
}

#[via_fn]
proof fn lines_spec_decreases(s: Seq<char>) {
    lemma_first_newline_bounds(s);
}

/// Splits a text into its lines.
pub fn split_lines(s: &str) -> (r: Vec<String>)
    ensures
        views_of(r@) == lines_spec(s@),
{
    let n = s.unicode_len();
    let mut r: Vec<String> = Vec::new();
    let mut start: usize = 0;
    proof {
        assert(s@.skip(0) =~= s@);
        assert(views_of(r@) =~= Seq::<Seq<char>>::empty());
        assert(views_of(r@) + lines_spec(s@) =~= lines_spec(s@));
    }
    while start < n
        invariant
            0 <= start <= n,
            n == s@.len(),
            lines_spec(s@) =~= views_of(r@) + lines_spec(s@.skip(start as int)),
        decreases n - start,
    {
        let ghost rest = s@.skip(start as int);
        let mut end: usize = start;
        while end < n && s.get_char(end) != '\n'
            invariant
                start <= end <= n,
                n == s@.len(),
                forall|k: int| start <= k < end ==> s@[k] != '\n',
            decreases n - end,
        {
            end = end + 1;
        }
        proof {
            assert(forall|k: int| 0 <= k < end - start ==> rest[k] == s@[k + start]);
            if (end as int) < n {
                assert(rest[end - start] == s@[end as int]);
            }
            lemma_first_newline_at(rest, end - start);
        }
        let line: String;
        if end < n {
            // split at the newline; drop one '\r' just before it
            if end > start && s.get_char(end - 1) == '\r' {
                line = s.substring_char(start, end - 1).to_owned();
            } else {
                line = s.substring_char(start, end).to_owned();
            }
            proof {
                assert(rest.take(end - start) =~= s@.subrange(start as int, end as int));
                if end > start && s@[end - 1] == '\r' {
                    assert(rest.take(end - start).take(end - start - 1) =~= s@.subrange(
                        start as int,
                        end - 1,
                    ));
                }
                assert(line@ == strip_cr(rest.take(end - start)));
                assert(rest.skip(end - start + 1) =~= s@.skip(end + 1));
                assert(lines_spec(rest) == seq![line@] + lines_spec(s@.skip(end + 1)));
            }
            r.push(line);
            proof {
                assert(views_of(r@) =~= views_of(r@.take(r@.len() - 1)) + seq![line@]);
            }
            start = end + 1;
        } else {
            line = s.substring_char(start, n).to_owned();
            proof {
                assert(rest =~= s@.subrange(start as int, n as int));
                assert(lines_spec(rest) == seq![rest]);
                assert(line@ == rest);
            }
            r.push(line);
            proof {
                assert(views_of(r@) =~= views_of(r@.take(r@.len() - 1)) + seq![line@]);
                assert(s@.skip(n as int) =~= Seq::<char>::empty());
            }
            start = n;
        }
    }
    proof {
        assert(s@.skip(start as int) =~= Seq::<char>::empty());
        assert(views_of(r@) =~= views_of(r@) + lines_spec(s@.skip(start as int)));
        if n == 0 {
            assert(lines_spec(s@) =~= views_of(r@));
        }
    }
    r
}


/// `s` begins with the prefix `p`.
pub open spec fn starts_with_spec(s: Seq<char>, p: Seq<char>) -> bool {
    s.len() >= p.len() && s.subrange(0, p.len() as int) == p
}

/// Tests whether `s` begins with `p`.
pub fn starts_with_str(s: &str, p: &str) -> (r: bool)
    ensures
        r == starts_with_spec(s@, p@),
{
    let n = s.unicode_len();
    let m = p.unicode_len();
    if n < m {
        return false;
    }
    let mut i: usize = 0;
    while i < m
        invariant
            0 <= i <= m <= n,
            n == s@.len(),
            m == p@.len(),
            forall|k: int| 0 <= k < i ==> s@[k] == p@[k],
        decreases m - i,
    {
        if s.get_char(i) != p.get_char(i) {
            proof {
                assert(s@.subrange(0, m as int)[i as int] != p@[i as int]);
            }
            return false;
        }
        i = i + 1;
    }
    proof {
        assert(s@.subrange(0, m as int) =~= p@);
    }
    true
}

/// The length of a leading to-do marker keyword together with its opening
/// bracket, or -1 when the line carries none.
pub open spec fn todo_prefix_len(s: Seq<char>) -> int {
    if starts_with_spec(s, "TODO["@) {
        "TODO["@.len() as int
    } else if starts_with_spec(s, "DOING["@) {
        "DOING["@.len() as int
    } else if starts_with_spec(s, "PLAN["@) {
        "PLAN["@.len() as int
    } else if starts_with_spec(s, "DONE["@) {
        "DONE["@.len() as int
    } else if starts_with_spec(s, "CANCELED["@) {
        "CANCELED["@.len() as int
    } else {
        -1
    }
}

/// Finds a leading to-do marker keyword and returns its length including
/// the opening bracket.
fn todo_prefix(s: &str) -> (r: Option<usize>)
    ensures
        match r {
            Some(k) => todo_prefix_len(s@) == k as int,
            None => todo_prefix_len(s@) == -1,
        },
{
    let kw1: &str = "TODO[";
    let kw2: &str = "DOING[";
    let kw3: &str = "PLAN[";
    let kw4: &str = "DONE[";
    let kw5: &str = "CANCELED[";
    if starts_with_str(s, kw1) {
        Some(kw1.unicode_len())
    } else if starts_with_str(s, kw2) {
        Some(kw2.unicode_len())
    } else if starts_with_str(s, kw3) {
        Some(kw3.unicode_len())
    } else if starts_with_str(s, kw4) {
        Some(kw4.unicode_len())
    } else if starts_with_str(s, kw5) {
        Some(kw5.unicode_len())
    } else {
        None
    }
}

/// A "]:" pair closes a to-do marker at position `k`.
pub open spec fn close_at(s: Seq<char>, k: int) -> bool {
    0 <= k && k + 1 < s.len() && s[k] == ']' && s[k + 1] == ':'
}

/// The line opens with a to-do marker keyword and closes it with "]:".
pub open spec fn todo_matches(line: Seq<char>) -> bool {
    todo_prefix_len(line) >= 0 && exists|k: int| todo_prefix_len(line) <= k && close_at(line, k)
}

/// `k` is the last "]:" of the line, at or after the marker's bracket.
pub open spec fn todo_split_at(line: Seq<char>, k: int) -> bool {
    todo_prefix_len(line) <= k && close_at(line, k) && (forall|k2: int|
        k2 > k ==> !close_at(line, k2))
}

/// The title a to-do marker line yields: what follows its last "]:", trimmed.
pub open spec fn todo_title(line: Seq<char>) -> Seq<char> {
    let k = choose|k: int| todo_split_at(line, k);
    trim_spec(line.skip(k + 2))
}

/// Finds the last "]:" at or after position `plen`.
fn find_last_close(s: &str, plen: usize) -> (r: Option<usize>)
    ensures
        match r {
            Some(k) => plen <= k && close_at(s@, k as int) && (forall|k2: int|
                k2 > k as int ==> !close_at(s@, k2)),
            None => forall|k2: int| plen <= k2 ==> !close_at(s@, k2),
        },
{
    let n = s.unicode_len();
    if n < 2 {
        return None;
    }
    let mut k: usize = n - 1;
    while k > plen
        invariant
            0 <= k <= n - 1,
            n == s@.len(),
            n >= 2,
            forall|k2: int| k2 >= k ==> !close_at(s@, k2),
        decreases k,
    {
        let cand = k - 1;
        if s.get_char(cand) == ']' && s.get_char(cand + 1) == ':' {
            return Some(cand);
        }
        k = cand;
    }
    None
}

/// The title yielded by the first nonempty line of a scan: a to-do marker
/// line loses its marker; any other line is trimmed; no line at all yields
/// "NO TITLE".
pub open spec fn scan_lines(ls: Seq<Seq<char>>) -> Seq<char>
    decreases ls.len(),
{
    if ls.len() == 0 {
        "NO TITLE"@
    } else if ls[0].len() == 0 {
        scan_lines(ls.skip(1))
    } else if todo_matches(ls[0]) {
        todo_title(ls[0])
    } else {
        trim_spec(ls[0])
    }
}

/// The display title of a note text: the first line's "# " heading when it
/// has visible characters; otherwise the first nonempty line after it, less
/// any leading to-do marker; otherwise "NO TITLE".
pub open spec fn title_spec(content: Seq<char>) -> Seq<char> {
    let ls = lines_spec(content);
    if ls.len() == 0 {
        "NO TITLE"@
    } else if starts_with_spec(ls[0], "# "@) && trim_spec(ls[0].skip(2)).len() > 0 {
        trim_spec(ls[0].skip(2))
    } else {
        scan_lines(ls.skip(1))
    }
}

/// Extracts a display title from note text.
pub fn get_title_markdown(content: &str) -> (r: String)
    ensures
        r@ == title_spec(content@),
{
    let lines = split_lines(content);
    let ghost ls = views_of(lines@);
    if lines.len() == 0 {
        return "NO TITLE".to_owned();
    }
    let first = lines[0].as_str();
    proof {
        assert(first@ == ls[0]);
    }
    if starts_with_str(first, "# ") {
        proof {
            reveal_strlit("# ");
            assert("# "@.len() == 2);
        }
        let fl = first.unicode_len();
        let t = trim_str(first.substring_char(2, fl));
        proof {
            assert(first@.subrange(2, fl as int) =~= first@.skip(2));
        }
        if !t.as_str().is_empty() {
            return t;
        }
    }
    let mut i: usize = 1;
    while i < lines.len()
        invariant
            1 <= i <= lines.len(),
            ls == views_of(lines@),
            ls.len() == lines@.len(),
            ls.len() >= 1,
            title_spec(content@) == scan_lines(ls.skip(1)),
            scan_lines(ls.skip(1)) == scan_lines(ls.skip(i as int)),
        decreases lines.len() - i,
    {
        let line = lines[i].as_str();
        proof {
            assert(line@ == ls[i as int]);
            assert(ls.skip(i as int)[0] == ls[i as int]);
        }
        if line.is_empty() {
            proof {
                assert(ls.skip(i as int).skip(1) =~= ls.skip(i + 1));
            }
            i = i + 1;
            continue;
        }
        match todo_prefix(line) {
            Some(plen) => {
                match find_last_close(line, plen) {
                    Some(k) => {
                        proof {
                            assert(todo_matches(line@));
                            assert(todo_split_at(line@, k as int));
                            let ks = choose|ks: int| todo_split_at(line@, ks);
                            assert(todo_split_at(line@, ks));
                            if ks < k as int {
                                assert(!close_at(line@, k as int));
                                assert(false);
                            }
                            if ks > k as int {
                                assert(!close_at(line@, ks));
                                assert(false);
                            }
                        }
                        let ln = line.unicode_len();
                        let t = trim_str(line.substring_char(k + 2, ln));
                        proof {
                            assert(line@.subrange(k + 2, ln as int) =~= line@.skip(k + 2));
                            assert(t@ == todo_title(line@));
                        }
                        return t;
                    },
                    None => {
                        proof {
                            assert(!todo_matches(line@));
                        }
                        return trim_str(line);
                    },
                }
            },
            None => {
                proof {
                    assert(!todo_matches(line@));
                }
                return trim_str(line);
            },
        }
    }
    proof {
        assert(ls.skip(ls.len() as int) =~= Seq::<Seq<char>>::empty());
    }
    "NO TITLE".to_owned()
}


/// `s` ends with the suffix `p`.
pub open spec fn ends_with_spec(s: Seq<char>, p: Seq<char>) -> bool {
    s.len() >= p.len() && s.subrange(s.len() - p.len(), s.len() as int) == p
}

/// Tests whether the first `n` characters of `s` end with `p`.
fn ends_with_at(s: &str, n: usize, p: &str) -> (r: bool)
    requires
        n <= s@.len(),
    ensures
        r == ends_with_spec(s@.take(n as int), p@),
{
    let m = p.unicode_len();
    if n < m {
        return false;
    }
    let mut k: usize = 0;
    while k < m
        invariant
            0 <= k <= m,
            m == p@.len(),
            m <= n <= s@.len(),
            forall|q: int| 0 <= q < k ==> s@[n - m + q] == p@[q],
        decreases m - k,
    {
        if s.get_char(n - m + k) != p.get_char(k) {
            proof {
                assert(s@.take(n as int).subrange(n - m, n as int)[k as int] == s@[n - m + k]);
            }
            return false;
        }
        k = k + 1;
    }
    proof {
        assert(s@.take(n as int).subrange(n - m, n as int) =~= p@);
    }
    true
}

/// A file stem with every trailing repetition of the drawing extension
/// removed.
pub open spec fn strip_drawing_reps(s: Seq<char>) -> Seq<char>
    decreases s.len(),
{
    if ends_with_spec(s, ".excalidraw"@) && ".excalidraw"@.len() > 0 {
        strip_drawing_reps(s.take(s.len() - ".excalidraw"@.len()))
    } else {
        s
    }
}

/// The fallback title of a drawing that stores none: "Draw " and the file
/// stem, less any trailing repetitions of the drawing extension.
pub fn excalidraw_fallback_title(stem: &str) -> (r: String)
    ensures
        r@ == "Draw "@ + strip_drawing_reps(stem@),
{
    let extlen = ".excalidraw".unicode_len();
    let mut n = stem.unicode_len();
    proof {
        assert(stem@.take(n as int) =~= stem@);
    }
    while extlen > 0 && ends_with_at(stem, n, ".excalidraw")
        invariant
            n <= stem@.len(),
            extlen == ".excalidraw"@.len(),
            strip_drawing_reps(stem@) == strip_drawing_reps(stem@.take(n as int)),
        decreases n,
    {
        proof {
            assert(ends_with_spec(stem@.take(n as int), ".excalidraw"@));
            assert(stem@.take(n as int).len() == n as int);
            assert(n >= extlen);
            assert(stem@.take(n as int).take(n - extlen) =~= stem@.take(n - extlen));
        }
        n = n - extlen;
    }
    let r = String::from_str("Draw ").concat(stem.substring_char(0, n));
    proof {
        assert(stem@.subrange(0, n as int) =~= stem@.take(n as int));
        assert(strip_drawing_reps(stem@.take(n as int)) == stem@.take(n as int));
    }
    r
}

} // verus!
