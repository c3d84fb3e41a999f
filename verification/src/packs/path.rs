//! Portable relative paths inside a pack.

use vstd::prelude::*;
use vstd::string::{StrSliceExecFns, StringSliceAdditionalSpecFns};
use vstd::utf8::{encode_utf8, is_ascii_chars};

use super::files::{compare_bytes, ByteOrder};
use super::{one_issue, PackError, MAX_METADATA_BYTES, MAX_NOTE_BYTES, MAX_PUZZLE_BYTES};

verus! {

/// The index of the first `sep` byte, or the length when there is none.
pub open spec fn first_index_of(b: Seq<u8>, sep: u8) -> int
    decreases b.len(),
{
    if b.len() == 0 {
        0
    } else if b[0] == sep {
        0
    } else {
        1 + first_index_of(b.drop_first(), sep)
    }
}

pub proof fn lemma_first_index_of(b: Seq<u8>, sep: u8, m: int)
    requires
        0 <= m <= b.len(),
        forall|k: int| 0 <= k < m ==> b[k] != sep,
        m == b.len() || b[m] == sep,
    ensures
        first_index_of(b, sep) == m,
    decreases b.len(),
{
    if b.len() > 0 && m > 0 {
        lemma_first_index_of(b.drop_first(), sep, m - 1);
    }
}

pub proof fn lemma_first_index_bounds(b: Seq<u8>, sep: u8)
    ensures
        0 <= first_index_of(b, sep) <= b.len(),
        first_index_of(b, sep) < b.len() ==> b[first_index_of(b, sep)] == sep,
    decreases b.len(),
{
    if b.len() > 0 && b[0] != sep {
        lemma_first_index_bounds(b.drop_first(), sep);
    }
}

/// The `/`-separated components, as `str::split` gives them.
pub open spec fn split_components(b: Seq<u8>) -> Seq<Seq<u8>>
    decreases b.len(),
{
    let j = first_index_of(b, 47);
    if j < 0 || j >= b.len() {
        seq![b]
    } else {
        proof {
            lemma_first_index_bounds(b, 47);
        }
        seq![b.subrange(0, j)] + split_components(b.subrange(j + 1, b.len() as int))
    }
}

pub open spec fn is_path_byte(x: u8) -> bool {
    (97 <= x <= 122) || (48 <= x <= 57) || x == 45 || x == 46
}

pub open spec fn upper_byte(x: u8) -> u8 {
    if 97 <= x <= 122 {
        (x - 32) as u8
    } else {
        x
    }
}

/// `CON`, `PRN`, `AUX`, `NUL`, or `COM`/`LPT` and one digit from 1, in any case.
pub open spec fn is_device_stem(t: Seq<u8>) -> bool {
    let u = t.map_values(|x: u8| upper_byte(x));
    ||| u == seq![67u8, 79, 78]
    ||| u == seq![80u8, 82, 78]
    ||| u == seq![65u8, 85, 88]
    ||| u == seq![78u8, 85, 76]
    ||| u.len() == 4 && (u.subrange(0, 3) == seq![67u8, 79, 77] || u.subrange(0, 3) == seq![76u8, 80, 84]) && 49
        <= u[3] <= 57
}

pub open spec fn component_unportable(c: Seq<u8>) -> bool {
    ||| c.len() == 0
    ||| c == seq![46u8]
    ||| c == seq![46u8, 46]
    ||| c.len() > 80
    ||| c.last() == 46
    ||| c.last() == 32
}

/// What is wrong with one path component, if anything.
pub open spec fn component_problem(c: Seq<u8>) -> Option<Seq<char>> {
    if component_unportable(c) {
        Some("path component is not portable"@)
    } else if is_device_stem(c.subrange(0, first_index_of(c, 46))) {
        Some("path uses a reserved device name"@)
    } else if exists|i: int| 0 <= i < c.len() && !is_path_byte(#[trigger] c[i]) {
        Some("path contains a disallowed character"@)
    } else {
        None
    }
}

/// The problem of the first faulty component from index `k` on.
pub open spec fn first_problem(cs: Seq<Seq<u8>>, k: int) -> Option<Seq<char>>
    decreases cs.len() - k,
{
    if k < 0 || k >= cs.len() {
        None
    } else {
        match component_problem(cs[k]) {
            Some(m) => Some(m),
            None => first_problem(cs, k + 1),
        }
    }
}

/// Where and why a relative path is refused, if it is.
pub open spec fn relative_path_error(s: Seq<char>) -> Option<(Seq<char>, Seq<char>)> {
    let b = encode_utf8(s);
    if !is_ascii_chars(s) || s.len() == 0 || b.len() > 128 || s[0] == '/' || s.contains('\\') {
        Some(("path"@, "path is not portable and relative"@))
    } else if split_components(b).len() > 4 {
        Some((s, "path depth exceeds the limit"@))
    } else {
        match first_problem(split_components(b), 0) {
            Some(m) => Some((s, m)),
            None => None,
        }
    }
}

pub open spec fn range_of(b: Seq<u8>, r: (usize, usize)) -> Seq<u8> {
    b.subrange(r.0 as int, r.1 as int)
}

fn is_windows_device(b: &[u8], start: usize, end: usize) -> (r: bool)
    requires
        start <= end <= b@.len(),
    ensures
        r == is_device_stem(b@.subrange(start as int, end as int)),
{
    let ghost t = b@.subrange(start as int, end as int);
    let ghost u = t.map_values(|x: u8| upper_byte(x));
    let n = end - start;
    if n != 3 && n != 4 {
        proof {
            assert(u.len() == n);
        }
        return false;
    }
    let a = upper(b[start]);
    let c = upper(b[start + 1]);
    let d = upper(b[start + 2]);
    proof {
        assert(u[0] == a && u[1] == c && u[2] == d);
    }
    if n == 3 {
        let r = (a == 67 && c == 79 && d == 78) || (a == 80 && c == 82 && d == 78) || (a == 65 && c == 85 && d
            == 88) || (a == 78 && c == 85 && d == 76);
        proof {
            if r {
                if a == 67 && c == 79 && d == 78 {
                    assert(u =~= seq![67u8, 79, 78]);
                } else if a == 80 && c == 82 && d == 78 {
                    assert(u =~= seq![80u8, 82, 78]);
                } else if a == 65 && c == 85 && d == 88 {
                    assert(u =~= seq![65u8, 85, 88]);
                } else {
                    assert(u =~= seq![78u8, 85, 76]);
                }
            }
            if u == seq![67u8, 79, 78] || u == seq![80u8, 82, 78] || u == seq![65u8, 85, 88] || u == seq![
                78u8,
                85,
                76,
            ] {
                assert(u[0] == a && u[1] == c && u[2] == d);
            }
        }
        r
    } else {
        let e = upper(b[start + 3]);
        let r = ((a == 67 && c == 79 && d == 77) || (a == 76 && c == 80 && d == 84)) && 49 <= e && e <= 57;
        proof {
            assert(u[3] == e);
            if a == 67 && c == 79 && d == 77 {
                assert(u.subrange(0, 3) =~= seq![67u8, 79, 77]);
            }
            if a == 76 && c == 80 && d == 84 {
                assert(u.subrange(0, 3) =~= seq![76u8, 80, 84]);
            }
            if u.subrange(0, 3) == seq![67u8, 79, 77] || u.subrange(0, 3) == seq![76u8, 80, 84] {
                assert(u.subrange(0, 3)[0] == a && u.subrange(0, 3)[1] == c && u.subrange(0, 3)[2] == d);
            }
            assert(u.len() == 4);
            assert(u != seq![67u8, 79, 78] && u != seq![80u8, 82, 78] && u != seq![65u8, 85, 88] && u != seq![
                78u8,
                85,
                76,
            ]) by {
                assert(seq![67u8, 79, 78].len() == 3);
                assert(seq![80u8, 82, 78].len() == 3);
                assert(seq![65u8, 85, 88].len() == 3);
                assert(seq![78u8, 85, 76].len() == 3);
            }
        }
        r
    }
}

fn upper(x: u8) -> (r: u8)
    ensures
        r == upper_byte(x),
{
    if 97 <= x && x <= 122 {
        x - 32
    } else {
        x
    }
}

/// The index of the first `sep` byte in `b[start..end]`, or `end`.
pub(crate) fn find_byte(b: &[u8], start: usize, end: usize, sep: u8) -> (r: usize)
    requires
        start <= end <= b@.len(),
    ensures
        start <= r <= end,
        r - start == first_index_of(b@.subrange(start as int, end as int), sep),
{
    let mut j = start;
    while j < end && b[j] != sep
        invariant
            start <= j <= end <= b@.len(),
            forall|k: int| start <= k < j ==> b@[k] != sep,
        decreases end - j,
    {
        j = j + 1;
    }
    proof {
        lemma_first_index_of(b@.subrange(start as int, end as int), sep, j - start);
    }
    j
}

fn component_problem_at(b: &[u8], start: usize, end: usize) -> (r: Option<&'static str>)
    requires
        start <= end <= b@.len(),
    ensures
        r is None <==> component_problem(b@.subrange(start as int, end as int)) is None,
        r matches Some(m) ==> component_problem(b@.subrange(start as int, end as int)) == Some(m@),
{
    let ghost c = b@.subrange(start as int, end as int);
    let n = end - start;
    let unportable = n == 0 || (n == 1 && b[start] == 46) || (n == 2 && b[start] == 46 && b[start + 1] == 46) || n
        > 80 || b[end - 1] == 46 || b[end - 1] == 32;
    proof {
        assert(c.len() == n);
        assert(seq![46u8].len() == 1 && seq![46u8, 46].len() == 2);
        if n == 1 {
            assert(c[0] == b@[start as int]);
            if b@[start as int] == 46 {
                assert(c =~= seq![46u8]);
            }
            if c == seq![46u8] {
                assert(c[0] == seq![46u8][0]);
            }
        }
        if n == 2 {
            assert(c[0] == b@[start as int] && c[1] == b@[start + 1]);
            if b@[start as int] == 46 && b@[start + 1] == 46 {
                assert(c =~= seq![46u8, 46]);
            }
            if c == seq![46u8, 46] {
                assert(c[0] == seq![46u8, 46][0] && c[1] == seq![46u8, 46][1]);
            }
        }
        if n > 0 {
            assert(c.last() == b@[end - 1]);
        }
    }
    if unportable {
        return Some("path component is not portable");
    }
    let dot = find_byte(b, start, end, 46);
    proof {
        assert(c.subrange(0, first_index_of(c, 46)) =~= b@.subrange(start as int, dot as int));
    }
    if is_windows_device(b, start, dot) {
        return Some("path uses a reserved device name");
    }
    let mut i = start;
    while i < end
        invariant
            start <= i <= end <= b@.len(),
            c == b@.subrange(start as int, end as int),
            !component_unportable(c),
            !is_device_stem(c.subrange(0, first_index_of(c, 46))),
            forall|k: int| start <= k < i ==> is_path_byte(#[trigger] b@[k]),
        decreases end - i,
    {
        let x = b[i];
        if !((97 <= x && x <= 122) || (48 <= x && x <= 57) || x == 45 || x == 46) {
            proof {
                assert(!is_path_byte(c[i - start]));
            }
            return Some("path contains a disallowed character");
        }
        i = i + 1;
    }
    proof {
        assert forall|k: int| 0 <= k < c.len() implies is_path_byte(#[trigger] c[k]) by {
            assert(c[k] == b@[start + k]);
        }
    }
    None
}

/// Validates a pack-relative path: portable ASCII, at most four lowercase
/// components, and no reserved device names.
pub fn validate_relative_path(relative: &str) -> (r: Result<(), PackError>)
    ensures
        r is Ok <==> relative_path_error(relative@) is None,
        r matches Err(e) ==> (relative_path_error(relative@) matches Some(p) && e.view() == one_issue(p.0, p.1)),
{
    broadcast use vstd::utf8::is_ascii_chars_encode_utf8;

    let ghost s = relative@;
    if relative.is_empty() || !relative.is_ascii() || relative.len() > 128 {
        return Err(PackError::one("path", "path is not portable and relative"));
    }
    let b = relative.as_bytes();
    let n = b.len();
    proof {
        assert(b@ == encode_utf8(s));
        assert(n == s.len());
    }
    let mut slash_or_backslash = b[0] == 47;
    let mut k: usize = 0;
    while k < n
        invariant
            b@ == encode_utf8(s),
            n == b@.len(),
            n == s.len(),
            is_ascii_chars(s),
            k <= n,
            slash_or_backslash == (s[0] == '/' || exists|i: int| 0 <= i < k && s[i] == '\\'),
        decreases n - k,
    {
        if b[k] == 92 {
            slash_or_backslash = true;
        }
        proof {
            vstd::utf8::is_ascii_chars_encode_utf8(s);
            assert(s[k as int] as u8 == b@[k as int]);
            vstd::utf8::is_ascii_chars_nat_bound(s);
            assert((s[k as int] == '\\') == (b@[k as int] == 92u8));
        }
        k = k + 1;
    }
    proof {
        vstd::utf8::is_ascii_chars_encode_utf8(s);
        assert(s[0] as u8 == b@[0]);
        vstd::utf8::is_ascii_chars_nat_bound(s);
        assert((s[0] == '/') == (b@[0] == 47u8));
        assert(s.contains('\\') == exists|i: int| 0 <= i < n && s[i] == '\\');
    }
    if slash_or_backslash {
        return Err(PackError::one("path", "path is not portable and relative"));
    }
    let mut ranges: Vec<(usize, usize)> = Vec::new();
    let mut start: usize = 0;
    let mut finished = false;
    proof {
        assert(b@.subrange(0, n as int) =~= b@);
        assert(ranges@.map_values(|r: (usize, usize)| range_of(b@, r)) + split_components(b@) =~= split_components(
            b@,
        ));
    }
    while !finished
        invariant
            b@ == encode_utf8(s),
            n == b@.len(),
            start <= n,
            forall|i: int| 0 <= i < ranges@.len() ==> ranges@[i].0 <= #[trigger] ranges@[i].1 <= n,
            !finished ==> ranges@.map_values(|r: (usize, usize)| range_of(b@, r)) + split_components(
                b@.subrange(start as int, n as int),
            ) == split_components(b@),
            finished ==> ranges@.map_values(|r: (usize, usize)| range_of(b@, r)) == split_components(b@),
        decreases n - start + if finished { 0int } else { 1int },
    {
        let j = find_byte(b, start, n, 47);
        let ghost rest = b@.subrange(start as int, n as int);
        let ghost before = ranges@.map_values(|r: (usize, usize)| range_of(b@, r));
        ranges.push((start, j));
        proof {
            lemma_first_index_bounds(rest, 47);
            assert(ranges@.map_values(|r: (usize, usize)| range_of(b@, r)) =~= before.push(
                b@.subrange(start as int, j as int),
            ));
        }
        if j == n {
            proof {
                assert(rest =~= b@.subrange(start as int, j as int));
                assert(split_components(rest) == seq![rest]);
                assert(before + seq![rest] =~= before.push(rest));
            }
            finished = true;
        } else {
            proof {
                assert(rest.subrange(0, j - start) =~= b@.subrange(start as int, j as int));
                assert(rest.subrange(j - start + 1, rest.len() as int) =~= b@.subrange(j + 1, n as int));
                assert(split_components(rest) == seq![b@.subrange(start as int, j as int)] + split_components(
                    b@.subrange(j + 1, n as int),
                ));
                assert(before + split_components(rest) =~= before.push(b@.subrange(start as int, j as int))
                    + split_components(b@.subrange(j + 1, n as int)));
            }
            start = j + 1;
        }
    }
    let ghost cs = split_components(b@);
    if ranges.len() > 4 {
        return Err(PackError::one(relative, "path depth exceeds the limit"));
    }
    assert(relative_path_error(s) == match first_problem(cs, 0) {
        Some(m) => Some((s, m)),
        None => None::<(Seq<char>, Seq<char>)>,
    });
    let mut index: usize = 0;
    while index < ranges.len()
        invariant
            b@ == encode_utf8(s),
            n == b@.len(),
            forall|i: int| 0 <= i < ranges@.len() ==> ranges@[i].0 <= #[trigger] ranges@[i].1 <= n,
            ranges@.map_values(|r: (usize, usize)| range_of(b@, r)) == cs,
            index <= ranges@.len(),
            first_problem(cs, 0) == first_problem(cs, index as int),
            s == relative@,
            relative_path_error(s) == match first_problem(cs, 0) {
                Some(m) => Some((s, m)),
                None => None::<(Seq<char>, Seq<char>)>,
            },
        decreases ranges@.len() - index,
    {
        let (from, to) = ranges[index];
        assert(cs[index as int] == b@.subrange(from as int, to as int));
        match component_problem_at(b, from, to) {
            Some(problem) => {
                return Err(PackError::one(relative, problem));
            },
            None => {},
        }
        index = index + 1;
    }
    Ok(())
}

proof fn lemma_first_index_clear(b: Seq<u8>, sep: u8)
    ensures
        forall|k: int| 0 <= k < first_index_of(b, sep) ==> b[k] != sep,
    decreases b.len(),
{
    if b.len() > 0 && b[0] != sep {
        lemma_first_index_clear(b.drop_first(), sep);
        lemma_first_index_bounds(b, sep);
        assert forall|k: int| 0 <= k < first_index_of(b, sep) implies b[k] != sep by {
            if k > 0 {
                assert(b[k] == b.drop_first()[k - 1]);
            }
        }
    }
}

/// Components of lowercase letters, digits, `-` and `.` come from a path
/// made of those bytes and `/`.
proof fn lemma_component_bytes(b: Seq<u8>)
    requires
        forall|i: int|
            0 <= i < b.len() ==> (97 <= #[trigger] b[i] <= 122) || (48 <= b[i] <= 57) || b[i] == 45 || b[i]
                == 46 || b[i] == 47,
    ensures
        forall|k: int, j: int|
            0 <= k < split_components(b).len() && 0 <= j < split_components(b)[k].len() ==> {
                let x = #[trigger] split_components(b)[k][j];
                (97 <= x <= 122) || (48 <= x <= 57) || x == 45 || x == 46
            },
    decreases b.len(),
{
    let j = first_index_of(b, 47);
    lemma_first_index_bounds(b, 47);
    lemma_first_index_clear(b, 47);
    if j >= b.len() {
        assert(split_components(b) == seq![b]);
    } else {
        let rest = b.subrange(j + 1, b.len() as int);
        assert forall|i: int| 0 <= i < rest.len() implies (97 <= #[trigger] rest[i] <= 122) || (48 <= rest[i]
            <= 57) || rest[i] == 45 || rest[i] == 46 || rest[i] == 47 by {
            assert(rest[i] == b[j + 1 + i]);
        }
        lemma_component_bytes(rest);
        let cs = split_components(b);
        assert(cs == seq![b.subrange(0, j)] + split_components(rest));
        assert forall|k: int, q: int| 0 <= k < cs.len() && 0 <= q < cs[k].len() implies {
            let x = #[trigger] cs[k][q];
            (97 <= x <= 122) || (48 <= x <= 57) || x == 45 || x == 46
        } by {
            if k == 0 {
                assert(cs[k][q] == b[q]);
            } else {
                assert(cs[k] == split_components(rest)[k - 1]);
            }
        }
    }
}

proof fn lemma_no_first_problem(cs: Seq<Seq<u8>>, k: int)
    requires
        0 <= k,
        forall|j: int| k <= j < cs.len() ==> component_problem(#[trigger] cs[j]) is None,
    ensures
        first_problem(cs, k) is None,
    decreases cs.len() - k,
{
    if k < cs.len() {
        lemma_no_first_problem(cs, k + 1);
    }
}

/// A relative path of at most four components, each made of lowercase ASCII
/// letters, digits, `-` and `.`, is accepted when no component is empty,
/// `.` or `..`, longer than 80 bytes, ends in `.`, or has a reserved device
/// name before its first `.`.
pub proof fn lemma_portable_path_accepted(s: Seq<char>)
    requires
        0 < s.len() <= 128,
        s[0] != '/',
        forall|i: int|
            0 <= i < s.len() ==> ('a' <= #[trigger] s[i] <= 'z') || ('0' <= s[i] <= '9') || s[i] == '-' || s[i]
                == '.' || s[i] == '/',
        split_components(encode_utf8(s)).len() <= 4,
        forall|k: int|
            0 <= k < split_components(encode_utf8(s)).len() ==> {
                let c = #[trigger] split_components(encode_utf8(s))[k];
                &&& 0 < c.len() <= 80
                &&& c != seq![46u8]
                &&& c != seq![46u8, 46]
                &&& c.last() != 46
                &&& !is_device_stem(c.subrange(0, first_index_of(c, 46)))
            },
    ensures
        relative_path_error(s) is None,
{
    assert(is_ascii_chars(s));
    vstd::utf8::is_ascii_chars_encode_utf8(s);
    vstd::utf8::is_ascii_chars_nat_bound(s);
    let b = encode_utf8(s);
    assert forall|i: int| 0 <= i < b.len() implies (97 <= #[trigger] b[i] <= 122) || (48 <= b[i] <= 57) || b[i]
        == 45 || b[i] == 46 || b[i] == 47 by {
        assert(s[i] as u8 == b[i]);
    }
    assert(!s.contains('\\')) by {
        if s.contains('\\') {
            let i = choose|i: int| 0 <= i < s.len() && s[i] == '\\';
            assert(('a' <= s[i] <= 'z') || ('0' <= s[i] <= '9') || s[i] == '-' || s[i] == '.' || s[i] == '/');
        }
    }
    lemma_component_bytes(b);
    let cs = split_components(b);
    assert forall|j: int| 0 <= j < cs.len() implies component_problem(#[trigger] cs[j]) is None by {
        let c = cs[j];
        assert forall|i: int| 0 <= i < c.len() implies is_path_byte(#[trigger] c[i]) by {
            assert(c[i] == cs[j][i]);
        }
        assert(c.last() == cs[j][c.len() - 1]);
    }
    lemma_no_first_problem(cs, 0);
}

proof fn lemma_first_bad_id_byte(b: Seq<u8>, k: int)
    requires
        crate::domain::puzzle::id_byte_bad(b, k),
    ensures
        exists|j: int| #[trigger] crate::domain::puzzle::first_bad_id_byte(b, j),
    decreases k,
{
    if exists|j: int| 0 <= j < k && crate::domain::puzzle::id_byte_bad(b, j) {
        let j = choose|j: int| 0 <= j < k && crate::domain::puzzle::id_byte_bad(b, j);
        lemma_first_bad_id_byte(b, j);
    } else {
        assert(crate::domain::puzzle::first_bad_id_byte(b, k));
    }
}

/// Every byte of a portable identifier is a lowercase letter, a digit or `-`.
proof fn lemma_identifier_bytes(b: Seq<u8>)
    requires
        crate::domain::puzzle::id_error(b) is None,
    ensures
        0 < b.len() <= 64,
        forall|i: int| 0 <= i < b.len() ==> crate::domain::puzzle::is_segment_byte(#[trigger] b[i]) || b[i] == 45,
        crate::domain::puzzle::is_segment_byte(b[b.len() - 1]),
{
    assert forall|i: int| 0 <= i < b.len() implies crate::domain::puzzle::is_segment_byte(#[trigger] b[i]) || b[i]
        == 45 by {
        if crate::domain::puzzle::id_byte_bad(b, i) {
            lemma_first_bad_id_byte(b, i);
        }
    }
}

/// Characters whose encoding is all ASCII bytes are ASCII characters.
proof fn lemma_ascii_encoding(chars: Seq<char>)
    requires
        forall|i: int| 0 <= i < encode_utf8(chars).len() ==> #[trigger] encode_utf8(chars)[i] < 128,
    ensures
        vstd::utf8::is_ascii_chars(chars),
    decreases chars.len(),
{
    if chars.len() > 0 {
        let c = chars[0] as u32;
        let e = vstd::utf8::encode_scalar(c);
        let rest = chars.drop_first();
        assert(encode_utf8(chars) == e + encode_utf8(rest));
        assert(e.len() >= 1);
        assert(encode_utf8(chars)[0] == e[0]);
        if c > 0x7F {
            assert((0xC0u8 | ((c >> 6u32) & 0x1Fu32) as u8) >= 0xC0u8) by (bit_vector);
            assert((0xE0u8 | ((c >> 12u32) & 0x0Fu32) as u8) >= 0xC0u8) by (bit_vector);
            assert((0xF0u8 | ((c >> 18u32) & 0x7u32) as u8) >= 0xC0u8) by (bit_vector);
            assert(e[0] >= 0xC0);
        }
        assert forall|i: int| 0 <= i < encode_utf8(rest).len() implies #[trigger] encode_utf8(rest)[i] < 128 by {
            assert(encode_utf8(rest)[i] == encode_utf8(chars)[e.len() + i]);
        }
        lemma_ascii_encoding(rest);
        assert(c <= 0x7F);
        vstd::utf8::char_u32_cast(chars[0], c);
        assert(c as char == chars[0]);
        assert(c as char <= '\u{7f}');
        assert('\0' <= chars[0] <= '\u{7f}');
        assert forall|i: int| 0 <= i < chars.len() implies '\0' <= #[trigger] chars[i] <= '\u{7f}' by {
            if i > 0 {
                assert(chars[i] == rest[i - 1]);
            }
        }
    }
}

/// `puzzles/<id>.toml` is a portable relative path for every portable puzzle
/// identifier that is not a reserved device name.
pub proof fn lemma_puzzle_path_accepted(id: Seq<char>)
    requires
        crate::domain::puzzle::id_error(encode_utf8(id)) is None,
        !is_device_stem(encode_utf8(id)),
    ensures
        relative_path_error(super::puzzle_path(id)) is None,
{
    let e = encode_utf8(id);
    let n = id.len() as int;
    lemma_identifier_bytes(e);
    lemma_ascii_encoding(id);
    vstd::utf8::is_ascii_chars_encode_utf8(id);
    vstd::utf8::is_ascii_chars_nat_bound(id);
    reveal_strlit("puzzles/");
    reveal_strlit(".toml");
    let s = super::puzzle_path(id);
    assert(s.len() == n + 13);
    assert forall|i: int| 0 <= i < s.len() implies ('a' <= #[trigger] s[i] <= 'z') || ('0' <= s[i] <= '9') || s[i]
        == '-' || s[i] == '.' || s[i] == '/' by {
        if 8 <= i < 8 + n {
            assert(s[i] == id[i - 8]);
            assert(id[i - 8] as u8 == e[i - 8]);
        }
    }
    assert(vstd::utf8::is_ascii_chars(s));
    vstd::utf8::is_ascii_chars_encode_utf8(s);
    let b = encode_utf8(s);
    assert forall|i: int| 0 <= i < n implies #[trigger] b[8 + i] == e[i] by {
        assert(s[8 + i] == id[i]);
        assert(s[8 + i] as u8 == b[8 + i]);
        assert(id[i] as u8 == e[i]);
    }
    assert(b[7] == 47) by {
        assert(s[7] == '/');
        assert(s[7] as u8 == b[7]);
    }
    assert forall|i: int| 0 <= i < 7 implies #[trigger] b[i] != 47 && b[i] != 46 by {
        assert(s[i] as u8 == b[i]);
    }
    assert forall|i: int| 8 + n <= i < b.len() implies #[trigger] b[i] != 47 by {
        assert(s[i] as u8 == b[i]);
    }
    assert(b[8 + n] == 46 && b[b.len() - 1] == 108) by {
        assert(s[8 + n] as u8 == b[8 + n]);
        assert(s[12 + n] as u8 == b[12 + n]);
    }
    lemma_first_index_of(b, 47, 7);
    let head = b.subrange(0, 7);
    let rest = b.subrange(8, b.len() as int);
    lemma_first_index_of(rest, 47, rest.len() as int);
    assert(split_components(rest) == seq![rest]);
    assert(split_components(b) == seq![head] + split_components(rest));
    let cs = split_components(b);
    assert(cs == seq![head, rest]);
    lemma_first_index_of(head, 46, 7);
    assert(head.subrange(0, 7) == head);
    lemma_first_index_of(rest, 46, n);
    assert(rest.subrange(0, n) == e);
    assert(head.last() == b[6]);
    assert(rest.last() == b[b.len() - 1]);
    lemma_portable_path_accepted(s);
}

pub open spec fn last_index_of(b: Seq<u8>, sep: u8) -> int
    decreases b.len(),
{
    if b.len() == 0 {
        -1
    } else if b.last() == sep {
        b.len() - 1
    } else {
        last_index_of(b.drop_last(), sep)
    }
}

pub proof fn lemma_last_index_of(b: Seq<u8>, sep: u8, m: int)
    requires
        -1 <= m < b.len(),
        forall|k: int| m < k < b.len() ==> b[k] != sep,
        m == -1 || b[m] == sep,
    ensures
        last_index_of(b, sep) == m,
    decreases b.len(),
{
    if b.len() > 0 && m < b.len() - 1 {
        lemma_last_index_of(b.drop_last(), sep, m);
    }
}

/// The largest size a file at `path` (as bytes) may have, if the schema declares it.
pub open spec fn declared_limit(b: Seq<u8>) -> Option<u64> {
    let j = first_index_of(b, 47);
    let filename = b.subrange(j + 1, b.len() as int);
    let dot = last_index_of(filename, 46);
    let extension = filename.subrange(dot + 1, filename.len() as int);
    if b == encode_utf8("pack.toml"@) {
        Some(32768)
    } else if j >= b.len() || dot < 0 {
        None
    } else if b.subrange(0, j) == encode_utf8("puzzles"@) && extension == encode_utf8("toml"@) {
        Some(65536)
    } else if b.subrange(0, j) == encode_utf8("notes"@) && extension == encode_utf8("txt"@) {
        Some(16384)
    } else {
        None
    }
}

pub(crate) fn range_equals(b: &[u8], start: usize, end: usize, other: &[u8]) -> (r: bool)
    requires
        start <= end <= b@.len(),
    ensures
        r == (b@.subrange(start as int, end as int) == other@),
{
    if end - start != other.len() {
        return false;
    }
    let mut i: usize = 0;
    while i < other.len()
        invariant
            start <= end <= b@.len(),
            end - start == other@.len(),
            i <= other@.len(),
            forall|k: int| 0 <= k < i ==> b@[start + k] == other@[k],
        decreases other@.len() - i,
    {
        if b[start + i] != other[i] {
            proof {
                assert(b@.subrange(start as int, end as int)[i as int] != other@[i as int]);
            }
            return false;
        }
        i = i + 1;
    }
    assert(b@.subrange(start as int, end as int) =~= other@);
    true
}

/// The size limit of a declared pack file.
pub fn content_limit(relative: &str) -> (r: Result<u64, PackError>)
    ensures
        r matches Ok(limit) ==> declared_limit(relative.spec_bytes()) == Some(limit),
        r is Err <==> declared_limit(relative.spec_bytes()) is None,
        r matches Err(e) ==> e.view() == one_issue(relative@, "file is not declared by the schema"@),
{
    let b = relative.as_bytes();
    let n = b.len();
    match compare_bytes(b, "pack.toml".as_bytes()) {
        ByteOrder::Equal => {
            return Ok(MAX_METADATA_BYTES);
        },
        _ => {},
    }
    let j = find_byte(b, 0, n, 47);
    proof {
        assert(b@.subrange(0, n as int) =~= b@);
    }
    if j < n {
        let ghost filename = b@.subrange(j + 1, n as int);
        let mut k = n;
        while k > j + 1 && b[k - 1] != 46
            invariant
                j + 1 <= k <= n == b@.len(),
                forall|q: int| k <= q < n ==> b@[q] != 46,
            decreases k,
        {
            k = k - 1;
        }
        proof {
            let m = if k == j + 1 { -1 } else { k - 1 - (j + 1) };
            assert forall|q: int| m < q < filename.len() implies filename[q] != 46 by {
                assert(filename[q] == b@[j + 1 + q]);
            }
            lemma_last_index_of(filename, 46, m);
        }
        if k > j + 1 {
            let puzzles = range_equals(b, 0, j, "puzzles".as_bytes());
            let toml = range_equals(b, k, n, "toml".as_bytes());
            proof {
                assert(filename.subrange(k - (j + 1), filename.len() as int) =~= b@.subrange(k as int, n as int));
            }
            if puzzles && toml {
                return Ok(MAX_PUZZLE_BYTES);
            }
            let notes = range_equals(b, 0, j, "notes".as_bytes());
            let txt = range_equals(b, k, n, "txt".as_bytes());
            if notes && txt {
                return Ok(MAX_NOTE_BYTES);
            }
        }
    }
    Err(PackError::one(relative, "file is not declared by the schema"))
}

} // verus!
