//! The line classifier: stateless predicates and extractors that recognize
//! the line shapes of the manifest grammar. Each executable classifier is
//! specified against a spec-level definition of the shape it recognizes.

use vstd::prelude::*;
use crate::SortError;

verus! {

/// Whitespace, as the grammar understands it.
pub open spec fn is_space(c: char) -> bool {
    c == ' ' || c == '\t' || c == '\n' || c == '\r' || c == '\u{b}' || c == '\u{c}'
}

fn is_space_char(c: char) -> (b: bool)
    ensures
        b == is_space(c),
{
    c == ' ' || c == '\t' || c == '\n' || c == '\r' || c == '\u{b}' || c == '\u{c}'
}

/// A pattern character: `' '` stands for any single whitespace character,
/// every other character stands for itself.
pub open spec fn pat_char_matches(c: char, p: char) -> bool {
    if p == ' ' {
        is_space(c)
    } else {
        c == p
    }
}

/// The pattern `pat` matches in `s` starting at position `i`.
pub open spec fn pat_matches_at(s: Seq<char>, pat: Seq<char>, i: int) -> bool {
    forall|j: int| 0 <= j < pat.len() ==> pat_char_matches(s[i + j], #[trigger] pat[j])
}

/// The pattern `pat` matches somewhere in `s`.
pub open spec fn contains_pat(s: Seq<char>, pat: Seq<char>) -> bool {
    exists|i: int| 0 <= i && i + pat.len() <= s.len() && pat_matches_at(s, pat, i)
}

fn pat_at(s: &str, pat: &str, i: usize) -> (b: bool)
    requires
        i + pat@.len() <= s@.len(),
    ensures
        b == pat_matches_at(s@, pat@, i as int),
{
    let n = s.unicode_len();
    let m = pat.unicode_len();
    let mut j: usize = 0;
    while j < m
        invariant
            n == s@.len(),
            m == pat@.len(),
            i + m <= s@.len(),
            0 <= j <= m,
            forall|k: int| 0 <= k < j ==> pat_char_matches(s@[i + k], #[trigger] pat@[k]),
        decreases m - j,
    {
        let c = s.get_char(i + j);
        let p = pat.get_char(j);
        let ok = if p == ' ' {
            is_space_char(c)
        } else {
            c == p
        };
        if !ok {
            assert(!pat_char_matches(s@[i + j], pat@[j as int]));
            return false;
        }
        j += 1;
    }
    true
}

fn contains_pat_exec(s: &str, pat: &str) -> (b: bool)
    ensures
        b == contains_pat(s@, pat@),
{
    let n = s.unicode_len();
    let m = pat.unicode_len();
    if m > n {
        return false;
    }
    let mut i: usize = 0;
    while i <= n - m
        invariant
            n == s@.len(),
            m == pat@.len(),
            m <= n,
            0 <= i <= n - m + 1,
            forall|k: int| 0 <= k < i ==> !pat_matches_at(s@, pat@, k),
        decreases n - m - i + 1,
    {
        if pat_at(s, pat, i) {
            return true;
        }
        i += 1;
    }
    false
}

/// Every character of `s` in `[lo, hi)` is whitespace.
pub open spec fn all_ws(s: Seq<char>, lo: int, hi: int) -> bool {
    forall|k: int| lo <= k < hi ==> is_space(#[trigger] s[k])
}

/// The first index in `[j, bound)` holding a non-whitespace character, or
/// `bound` when there is none.
pub open spec fn ws_end(s: Seq<char>, j: int, bound: int) -> int
    decreases bound - j,
{
    if j >= bound {
        bound
    } else if !is_space(s[j]) {
        j
    } else {
        ws_end(s, j + 1, bound)
    }
}

/// The first index in `[j, bound)` holding a whitespace character, or
/// `bound` when there is none.
pub open spec fn nonws_end(s: Seq<char>, j: int, bound: int) -> int
    decreases bound - j,
{
    if j >= bound {
        bound
    } else if is_space(s[j]) {
        j
    } else {
        nonws_end(s, j + 1, bound)
    }
}

pub proof fn lemma_ws_end_props(s: Seq<char>, j: int, bound: int)
    requires
        j <= bound,
    ensures
        j <= ws_end(s, j, bound) <= bound,
        all_ws(s, j, ws_end(s, j, bound)),
        ws_end(s, j, bound) < bound ==> !is_space(s[ws_end(s, j, bound)]),
    decreases bound - j,
{
    if j < bound && is_space(s[j]) {
        lemma_ws_end_props(s, j + 1, bound);
    }
}

pub proof fn lemma_nonws_end_props(s: Seq<char>, j: int, bound: int)
    requires
        j <= bound,
    ensures
        j <= nonws_end(s, j, bound) <= bound,
        forall|k: int| j <= k < nonws_end(s, j, bound) ==> !is_space(#[trigger] s[k]),
        nonws_end(s, j, bound) < bound ==> is_space(s[nonws_end(s, j, bound)]),
    decreases bound - j,
{
    if j < bound && !is_space(s[j]) {
        lemma_nonws_end_props(s, j + 1, bound);
    }
}

fn ws_end_exec(s: &str, j: usize, bound: usize) -> (r: usize)
    requires
        j <= bound,
        bound <= s@.len(),
    ensures
        r == ws_end(s@, j as int, bound as int),
{
    let mut k = j;
    while k < bound
        invariant
            j <= k <= bound <= s@.len(),
            ws_end(s@, j as int, bound as int) == ws_end(s@, k as int, bound as int),
        decreases bound - k,
    {
        if !is_space_char(s.get_char(k)) {
            return k;
        }
        k += 1;
    }
    k
}

fn nonws_end_exec(s: &str, j: usize, bound: usize) -> (r: usize)
    requires
        j <= bound,
        bound <= s@.len(),
    ensures
        r == nonws_end(s@, j as int, bound as int),
{
    let mut k = j;
    while k < bound
        invariant
            j <= k <= bound <= s@.len(),
            nonws_end(s@, j as int, bound as int) == nonws_end(s@, k as int, bound as int),
        decreases bound - k,
    {
        if is_space_char(s.get_char(k)) {
            return k;
        }
        k += 1;
    }
    k
}

/// A block-comment opener `/* ` (with any whitespace after the `*`) starts
/// at position `i`.
pub open spec fn block_open_at(s: Seq<char>, i: int) -> bool {
    s[i] == '/' && s[i + 1] == '*' && is_space(s[i + 2])
}

/// The smallest position in `[j, last]` where a block-comment opener starts,
/// or `last + 1` when there is none.
pub open spec fn first_open_from(s: Seq<char>, j: int, last: int) -> int
    decreases last - j + 1,
{
    if j > last {
        last + 1
    } else if block_open_at(s, j) {
        j
    } else {
        first_open_from(s, j + 1, last)
    }
}

pub proof fn lemma_first_open_props(s: Seq<char>, j: int, last: int)
    requires
        j >= 0,
    ensures
        j <= first_open_from(s, j, last) || first_open_from(s, j, last) == last + 1,
        first_open_from(s, j, last) <= last + 1,
        first_open_from(s, j, last) <= last ==> block_open_at(s, first_open_from(s, j, last)),
        forall|k: int| j <= k < first_open_from(s, j, last) && k <= last ==> !block_open_at(s, k),
    decreases last - j + 1,
{
    if j <= last && !block_open_at(s, j) {
        lemma_first_open_props(s, j + 1, last);
    }
}

fn first_open_exec(s: &str, last: usize) -> (r: usize)
    requires
        last + 3 <= s@.len(),
    ensures
        r == first_open_from(s@, 0, last as int),
{
    let n = s.unicode_len();
    let mut k: usize = 0;
    while k <= last
        invariant
            n == s@.len(),
            k <= last + 1,
            last + 3 <= s@.len(),
            first_open_from(s@, 0, last as int) == first_open_from(s@, k as int, last as int),
        decreases last + 1 - k,
    {
        let c0 = s.get_char(k);
        let c1 = s.get_char(k + 1);
        let c2 = s.get_char(k + 2);
        if c0 == '/' && c1 == '*' && is_space_char(c2) {
            return k;
        }
        k += 1;
    }
    k
}

/// The line declares `isa = PBXGroup;` (one whitespace character on each
/// side of the `=`), anywhere in the line.
pub open spec fn is_pre_group_spec(s: Seq<char>) -> bool {
    contains_pat(s, "isa = PBXGroup;"@)
}

/// True when the line carries the group marker `isa = PBXGroup;`.
pub fn is_pre_group(string: &str) -> (b: bool)
    ensures
        b == is_pre_group_spec(string@),
{
    contains_pat_exec(string, "isa = PBXGroup;")
}

/// The line contains `children = (`, the opening of a children list.
pub open spec fn is_start_parent_spec(s: Seq<char>) -> bool {
    contains_pat(s, "children = ("@)
}

/// True when the line opens a children list.
pub fn is_start_parent(string: &str) -> (b: bool)
    ensures
        b == is_start_parent_spec(string@),
{
    contains_pat_exec(string, "children = (")
}

/// The line contains the delimiter comment opening the file-reference section.
pub open spec fn is_start_files_spec(s: Seq<char>) -> bool {
    contains_pat(s, "/* Begin PBXFileReference section */"@)
}

/// True when the line opens the file-reference section.
pub fn is_start_files(string: &str) -> (b: bool)
    ensures
        b == is_start_files_spec(string@),
{
    contains_pat_exec(string, "/* Begin PBXFileReference section */")
}

/// The line contains the delimiter comment closing the file-reference section.
pub open spec fn is_end_files_spec(s: Seq<char>) -> bool {
    contains_pat(s, "/* End PBXFileReference section */"@)
}

/// True when the line closes the file-reference section.
pub fn is_end_files(string: &str) -> (b: bool)
    ensures
        b == is_end_files_spec(string@),
{
    contains_pat_exec(string, "/* End PBXFileReference section */")
}

/// The line is `);` with optional leading and trailing whitespace: the
/// closing of a children list.
pub open spec fn is_end_parent_spec(s: Seq<char>) -> bool {
    let n = s.len() as int;
    let a = ws_end(s, 0, n);
    &&& a + 2 <= n
    &&& s[a] == ')'
    &&& s[a + 1] == ';'
    &&& all_ws(s, a + 2, n)
}

/// True when the line closes a children list.
pub fn is_end_parent(string: &str) -> (b: bool)
    ensures
        b == is_end_parent_spec(string@),
{
    let n = string.unicode_len();
    let a = ws_end_exec(string, 0, n);
    proof {
        lemma_ws_end_props(string@, 0, n as int);
    }
    if n < 2 || a > n - 2 {
        return false;
    }
    if string.get_char(a) != ')' || string.get_char(a + 1) != ';' {
        return false;
    }
    let e = ws_end_exec(string, a + 2, n);
    proof {
        lemma_ws_end_props(string@, a + 2, n as int);
    }
    e == n
}

/// The line has the shape `<any prefix> /* <name> */ = {` at line end: a
/// block-comment opener somewhere, and the closing `*/ = {` as the line's
/// last characters, each gap a single whitespace character.
pub open spec fn has_block_name_spec(s: Seq<char>) -> bool {
    let n = s.len() as int;
    &&& n >= 11
    &&& s[n - 1] == '{'
    &&& is_space(s[n - 2])
    &&& s[n - 3] == '='
    &&& is_space(s[n - 4])
    &&& s[n - 5] == '/'
    &&& s[n - 6] == '*'
    &&& is_space(s[n - 7])
    &&& exists|i: int| 0 <= i <= n - 11 && block_open_at(s, i)
}

/// True when the line ends with a named block header `/* <name> */ = {`.
pub fn has_block_name(string: &str) -> (b: bool)
    ensures
        b == has_block_name_spec(string@),
{
    let n = string.unicode_len();
    if n < 11 {
        return false;
    }
    if string.get_char(n - 1) != '{' || !is_space_char(string.get_char(n - 2))
        || string.get_char(n - 3) != '=' || !is_space_char(string.get_char(n - 4))
        || string.get_char(n - 5) != '/' || string.get_char(n - 6) != '*'
        || !is_space_char(string.get_char(n - 7)) {
        return false;
    }
    let i = first_open_exec(string, n - 11);
    proof {
        lemma_first_open_props(string@, 0, n as int - 11);
    }
    i <= n - 11
}

/// The trailing shape of a child-entry line: ` */,` at line end.
pub open spec fn child_tail_ok(s: Seq<char>) -> bool {
    let n = s.len() as int;
    &&& n >= 8
    &&& s[n - 3] == '*'
    &&& s[n - 2] == '/'
    &&& s[n - 1] == ','
    &&& is_space(s[n - 4])
}

/// The display name of a child-entry line `<prefix> /* <name> */,`: the
/// text strictly between the whitespace run that follows the leftmost
/// block-comment opener and the single whitespace character before the
/// closing `*/,` at line end. `None` when the line does not have that
/// shape.
pub open spec fn children_name_spec(s: Seq<char>) -> Option<Seq<char>> {
    let n = s.len() as int;
    if !child_tail_ok(s) {
        None
    } else {
        let i = first_open_from(s, 0, n - 8);
        if i > n - 8 {
            None
        } else {
            let p = ws_end(s, i + 2, n - 5);
            Some(s.subrange(p, n - 4))
        }
    }
}

/// Extracts the display name from a child-entry line, or reports that the
/// line is not one. Failure is recoverable: it only signals that the line
/// is not an entry line.
pub fn children_name(string: &str) -> (r: Result<&str, SortError>)
    ensures
        match r {
            Ok(name) => children_name_spec(string@) == Some(name@),
            Err(e) => children_name_spec(string@) is None && e
                == SortError::ChildrenNameParserError,
        },
{
    let n = string.unicode_len();
    if n < 8 {
        return Err(SortError::ChildrenNameParserError);
    }
    if string.get_char(n - 3) != '*' || string.get_char(n - 2) != '/'
        || string.get_char(n - 1) != ',' || !is_space_char(string.get_char(n - 4)) {
        return Err(SortError::ChildrenNameParserError);
    }
    let i = first_open_exec(string, n - 8);
    proof {
        lemma_first_open_props(string@, 0, n as int - 8);
    }
    if i > n - 8 {
        return Err(SortError::ChildrenNameParserError);
    }
    let p = ws_end_exec(string, i + 2, n - 5);
    proof {
        lemma_ws_end_props(string@, i as int + 2, n as int - 5);
    }
    Ok(string.substring_char(p, n - 4))
}

/// The leading identifier of a line `<ws>* <id> <ws>+ /* <ws> ...`: the
/// first whitespace-delimited token, provided a block-comment opener
/// follows it. `None` when the line does not have that shape.
pub open spec fn file_id_spec(s: Seq<char>) -> Option<Seq<char>> {
    let n = s.len() as int;
    let a = ws_end(s, 0, n);
    let b = nonws_end(s, a, n);
    let c = ws_end(s, b, n);
    if a < n && b < n && c + 2 < n && s[c] == '/' && s[c + 1] == '*' && is_space(s[c + 2]) {
        Some(s.subrange(a, b))
    } else {
        None
    }
}

/// The line carries a leading identifier followed by a block comment.
pub open spec fn has_file_id_spec(s: Seq<char>) -> bool {
    file_id_spec(s) is Some
}

/// Extracts the leading identifier token, or reports that the line has
/// none. Failure is recoverable: it only signals that the line carries no
/// identifier.
pub fn file_id(string: &str) -> (r: Result<&str, SortError>)
    ensures
        match r {
            Ok(id) => file_id_spec(string@) == Some(id@),
            Err(e) => file_id_spec(string@) is None && e == SortError::FileIdParserError,
        },
{
    let n = string.unicode_len();
    let a = ws_end_exec(string, 0, n);
    proof {
        lemma_ws_end_props(string@, 0, n as int);
    }
    let b = nonws_end_exec(string, a, n);
    proof {
        lemma_nonws_end_props(string@, a as int, n as int);
    }
    let c = ws_end_exec(string, b, n);
    proof {
        lemma_ws_end_props(string@, b as int, n as int);
    }
    if a < n && b < n && n >= 3 && c < n - 2 {
        if string.get_char(c) == '/' && string.get_char(c + 1) == '*'
            && is_space_char(string.get_char(c + 2)) {
            return Ok(string.substring_char(a, b));
        }
    }
    Err(SortError::FileIdParserError)
}

/// True when the line carries a leading identifier followed by a block
/// comment.
pub fn has_file_id(string: &str) -> (b: bool)
    ensures
        b == has_file_id_spec(string@),
{
    match file_id(string) {
        Ok(_) => true,
        Err(_) => false,
    }
}

} // verus!
