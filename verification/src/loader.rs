//! The textual side of mesh loading.
//!
//! Mesh files reach the renderer as text (OBJ) or as a vertex/face table
//! (STL).  Reading the bytes is I/O and stays with the renderer; what is
//! verified here is the grammar: classifying a line of an OBJ file,
//! parsing decimal indices, splitting the `a/b/c` groups of a face record,
//! and checking that a face table only references vertices that exist.

use vstd::prelude::*;

verus! {

/// Failure to make sense of a mesh record.
#[derive(Clone, Copy, Debug, PartialEq, Eq, Structural)]
pub struct ObjLoadError;

impl ObjLoadError {
    /// A fixed description of the failure.
    pub fn description(&self) -> (r: &'static str)
        ensures
            r@ == "Failed to load Obj file"@,
    {
        "Failed to load Obj file"
    }
}

/// `c` is a decimal digit.
pub open spec fn is_dec_digit(c: char) -> bool {
    48 <= c as int && c as int <= 57
}

/// The value of a decimal digit.
pub open spec fn digit_val(c: char) -> int {
    c as int - 48
}

/// The value of a digit string, most significant first.
pub open spec fn digits_val(s: Seq<char>) -> int
    decreases s.len(),
{
    if s.len() == 0 {
        0
    } else {
        digits_val(s.drop_last()) * 10 + digit_val(s.last())
    }
}

/// Every character of `s` is a decimal digit.
pub open spec fn all_digits(s: Seq<char>) -> bool {
    forall|i: int| 0 <= i < s.len() ==> is_dec_digit(#[trigger] s[i])
}

/// The digits of a numeral: everything after an optional leading plus sign.
pub open spec fn numeral_body(s: Seq<char>) -> Seq<char> {
    if s.len() > 0 && s[0] == '+' {
        s.subrange(1, s.len() as int)
    } else {
        s
    }
}

/// `s` is an unsigned decimal numeral: an optional plus sign, then at least
/// one digit.
pub open spec fn is_usize_numeral(s: Seq<char>) -> bool {
    numeral_body(s).len() > 0 && all_digits(numeral_body(s))
}

/// The value of a numeral.
pub open spec fn numeral_val(s: Seq<char>) -> int {
    digits_val(numeral_body(s))
}

/// A digit string's value is never negative.
proof fn lemma_digits_val_nonneg(s: Seq<char>)
    requires
        all_digits(s),
    ensures
        digits_val(s) >= 0,
    decreases s.len(),
{
    if s.len() > 0 {
        assert(all_digits(s.drop_last()));
        lemma_digits_val_nonneg(s.drop_last());
    }
}

/// A digit string's value dominates the value of each of its prefixes.
proof fn lemma_digits_val_prefix_le(s: Seq<char>, j: int)
    requires
        all_digits(s),
        0 <= j <= s.len(),
    ensures
        digits_val(s.subrange(0, j)) <= digits_val(s),
    decreases s.len(),
{
    if j == s.len() {
        assert(s.subrange(0, j) =~= s);
    } else {
        let t = s.drop_last();
        assert(all_digits(t));
        assert(s.subrange(0, j) =~= t.subrange(0, j));
        lemma_digits_val_prefix_le(t, j);
        lemma_digits_val_nonneg(t);
    }
}

/// Parse an unsigned decimal numeral.  Returns its value exactly when the
/// string is a numeral whose value fits a `usize`; rejects everything else.
pub fn parse_usize(s: &str) -> (r: Result<usize, ObjLoadError>)
    ensures
        match r {
            Ok(v) => is_usize_numeral(s@) && numeral_val(s@) <= usize::MAX && v as int
                == numeral_val(s@),
            Err(_) => !is_usize_numeral(s@) || numeral_val(s@) > usize::MAX,
        },
{
    let n = s.unicode_len();
    let start: usize = if n > 0 && s.get_char(0) == '+' {
        1
    } else {
        0
    };
    proof {
        assert(numeral_body(s@) =~= s@.subrange(start as int, n as int));
    }
    if n == start {
        return Err(ObjLoadError);
    }
    let mut v: usize = 0;
    let mut i: usize = start;
    while i < n
        invariant
            start <= i <= n,
            n == s@.len(),
            numeral_body(s@) == s@.subrange(start as int, n as int),
            all_digits(s@.subrange(start as int, i as int)),
            v as int == digits_val(s@.subrange(start as int, i as int)),
        decreases n - i,
    {
        let c = s.get_char(i);
        let u = c as u32;
        let ghost prefix = s@.subrange(start as int, i as int);
        let ghost prefix1 = s@.subrange(start as int, i + 1 as int);
        proof {
            assert(prefix1.drop_last() =~= prefix);
            assert(prefix1.last() == s@[i as int]);
        }
        if u < 48 || u > 57 {
            proof {
                let body = numeral_body(s@);
                assert(!is_dec_digit(body[i - start]));
            }
            return Err(ObjLoadError);
        }
        let d = (u - 48) as usize;
        if v > usize::MAX / 10 || (v == usize::MAX / 10 && d > usize::MAX % 10) {
            proof {
                assert(digits_val(prefix1) == v as int * 10 + d);
                assert(digits_val(prefix1) > usize::MAX) by {
                    assert(usize::MAX as int == 10 * (usize::MAX as int / 10) + usize::MAX as int
                        % 10);
                }
                if is_usize_numeral(s@) {
                    let body = numeral_body(s@);
                    assert(prefix1 =~= body.subrange(0, i + 1 - start as int));
                    lemma_digits_val_prefix_le(body, i + 1 - start as int);
                }
            }
            return Err(ObjLoadError);
        }
        proof {
            assert(v as int * 10 + d <= usize::MAX) by {
                assert(usize::MAX as int == 10 * (usize::MAX as int / 10) + usize::MAX as int % 10);
            }
            assert(all_digits(prefix1));
        }
        v = v * 10 + d;
        i = i + 1;
    }
    proof {
        assert(s@.subrange(start as int, i as int) == numeral_body(s@));
    }
    Ok(v)
}

/// A token that names a 1-based index: a numeral whose value is at least 1
/// and fits a `usize`.
pub open spec fn valid_index_token(s: Seq<char>) -> bool {
    &&& is_usize_numeral(s)
    &&& 1 <= numeral_val(s)
    &&& numeral_val(s) <= usize::MAX
}

/// Parse a 1-based index token into its 0-based index.  A numeral of value
/// zero is rejected: faces count their vertices from one.
pub fn read_index(s: &str) -> (r: Result<usize, ObjLoadError>)
    ensures
        match r {
            Ok(v) => valid_index_token(s@) && v as int == numeral_val(s@) - 1,
            Err(_) => !valid_index_token(s@),
        },
{
    match parse_usize(s) {
        Ok(v) => {
            if v == 0 {
                Err(ObjLoadError)
            } else {
                Ok(v - 1)
            }
        },
        Err(e) => Err(e),
    }
}

/// The kind of an OBJ line, by its keyword.
#[derive(Clone, Copy, Debug, PartialEq, Eq, Structural)]
pub enum ObjLine {
    /// `v `: a vertex position record.
    Vertex,
    /// `vn `: a vertex normal record.
    Normal,
    /// `f `: a face record.
    Face,
    /// Anything else (comments, groups, materials) — ignored.
    Other,
}

/// Classify one line of an OBJ file by its leading keyword.
pub fn classify_line(s: &str) -> (k: ObjLine)
    ensures
        k == ObjLine::Vertex <==> s@.len() >= 2 && s@[0] == 'v' && s@[1] == ' ',
        k == ObjLine::Normal <==> s@.len() >= 3 && s@[0] == 'v' && s@[1] == 'n' && s@[2] == ' ',
        k == ObjLine::Face <==> s@.len() >= 2 && s@[0] == 'f' && s@[1] == ' ',
{
    let n = s.unicode_len();
    if n >= 2 && s.get_char(0) == 'v' && s.get_char(1) == ' ' {
        ObjLine::Vertex
    } else if n >= 3 && s.get_char(0) == 'v' && s.get_char(1) == 'n' && s.get_char(2) == ' ' {
        ObjLine::Normal
    } else if n >= 2 && s.get_char(0) == 'f' && s.get_char(1) == ' ' {
        ObjLine::Face
    } else {
        ObjLine::Other
    }
}

/// Whether the face record uses `a/b/c` groups (with normals) rather than
/// bare indices.
pub fn has_slash(s: &str) -> (b: bool)
    ensures
        b == exists|i: int| 0 <= i < s@.len() && s@[i] == '/',
{
    let n = s.unicode_len();
    let mut i: usize = 0;
    while i < n
        invariant
            i <= n,
            n == s@.len(),
            forall|k: int| 0 <= k < i ==> s@[k] != '/',
        decreases n - i,
    {
        if s.get_char(i) == '/' {
            proof {
                assert(s@[i as int] == '/');
            }
            return true;
        }
        i = i + 1;
    }
    false
}

/// `i` and `j` are the positions of the exactly two slashes of `s`.
pub open spec fn group_splits(s: Seq<char>, i: int, j: int) -> bool {
    &&& 0 <= i < j < s.len()
    &&& s[i] == '/'
    &&& s[j] == '/'
    &&& forall|k: int| 0 <= k < s.len() && k != i && k != j ==> #[trigger] s[k] != '/'
}

/// The three parts of a well-split group are valid index tokens.
pub open spec fn group_parts_valid(s: Seq<char>, i: int, j: int) -> bool {
    &&& valid_index_token(s.subrange(0, i))
    &&& valid_index_token(s.subrange(i + 1, j))
    &&& valid_index_token(s.subrange(j + 1, s.len() as int))
}

/// Parse a face group `a/b/c` into its three 0-based indices.  Succeeds
/// exactly when the token holds two slashes and each of the three parts is
/// a 1-based index token.
pub fn read_group(s: &str) -> (r: Result<(usize, usize, usize), ObjLoadError>)
    ensures
        match r {
            Ok(t) => exists|i: int, j: int|
                #[trigger] group_splits(s@, i, j) && group_parts_valid(s@, i, j) && t.0 as int
                    == numeral_val(s@.subrange(0, i)) - 1 && t.1 as int == numeral_val(
                    s@.subrange(i + 1, j),
                ) - 1 && t.2 as int == numeral_val(s@.subrange(j + 1, s@.len() as int)) - 1,
            Err(_) => forall|i: int, j: int|
                #[trigger] group_splits(s@, i, j) ==> !group_parts_valid(s@, i, j),
        },
{
    let n = s.unicode_len();
    let mut p1: usize = 0;
    let mut p2: usize = 0;
    let mut count: usize = 0;
    let mut k: usize = 0;
    while k < n
        invariant
            k <= n,
            n == s@.len(),
            count <= 2,
            count == 0 ==> forall|m: int| 0 <= m < k ==> #[trigger] s@[m] != '/',
            count == 1 ==> p1 < k && s@[p1 as int] == '/' && forall|m: int|
                0 <= m < k && m != p1 ==> #[trigger] s@[m] != '/',
            count == 2 ==> p1 < p2 < k && s@[p1 as int] == '/' && s@[p2 as int] == '/'
                && forall|m: int| 0 <= m < k && m != p1 && m != p2 ==> #[trigger] s@[m] != '/',
        decreases n - k,
    {
        if s.get_char(k) == '/' {
            if count == 0 {
                p1 = k;
                count = 1;
            } else if count == 1 {
                p2 = k;
                count = 2;
            } else {
                // A third slash: no two positions can absorb all slashes.
                proof {
                    assert forall|i: int, j: int| #[trigger] group_splits(s@, i, j)
                        implies !group_parts_valid(s@, i, j) by {
                        assert(s@[p1 as int] == '/' && s@[p2 as int] == '/' && s@[k as int]
                            == '/');
                        assert(p1 as int == i || p1 as int == j);
                        assert(p2 as int == i || p2 as int == j);
                        assert(k as int == i || k as int == j);
                        assert(false);
                    }
                }
                return Err(ObjLoadError);
            }
        }
        k = k + 1;
    }
    if count != 2 {
        proof {
            assert forall|i: int, j: int| #[trigger] group_splits(s@, i, j)
                implies !group_parts_valid(s@, i, j) by {
                if count == 0 {
                    assert(s@[i] != '/');
                } else {
                    assert(p1 as int == i || p1 as int == j);
                    assert(s@[if p1 as int == i {
                        j
                    } else {
                        i
                    }] != '/');
                }
                assert(false);
            }
        }
        return Err(ObjLoadError);
    }
    let a_str = s.substring_char(0, p1);
    let b_str = s.substring_char(p1 + 1, p2);
    let c_str = s.substring_char(p2 + 1, n);
    proof {
        assert(group_splits(s@, p1 as int, p2 as int));
        assert forall|i: int, j: int| #[trigger] group_splits(s@, i, j) implies i == p1 as int && j
            == p2 as int by {
            assert(i == p1 as int || i == p2 as int);
            assert(j == p1 as int || j == p2 as int);
        }
    }
    let ra = read_index(a_str);
    let rb = read_index(b_str);
    let rc = read_index(c_str);
    match (ra, rb, rc) {
        (Ok(a), Ok(b), Ok(c)) => {
            proof {
                assert(group_splits(s@, p1 as int, p2 as int) && group_parts_valid(
                    s@,
                    p1 as int,
                    p2 as int,
                ));
            }
            Ok((a, b, c))
        },
        _ => {
            proof {
                assert(!group_parts_valid(s@, p1 as int, p2 as int));
            }
            Err(ObjLoadError)
        },
    }
}

/// Parse the index tokens of a bare face record (the tokens after the `f`
/// keyword).  Succeeds exactly when there are three tokens and each is a
/// 1-based index token.
pub fn parse_face_indices(tokens: &Vec<&str>) -> (r: Result<(usize, usize, usize), ObjLoadError>)
    ensures
        match r {
            Ok(t) => {
                &&& tokens@.len() == 3
                &&& valid_index_token(tokens@[0]@)
                &&& valid_index_token(tokens@[1]@)
                &&& valid_index_token(tokens@[2]@)
                &&& t.0 as int == numeral_val(tokens@[0]@) - 1
                &&& t.1 as int == numeral_val(tokens@[1]@) - 1
                &&& t.2 as int == numeral_val(tokens@[2]@) - 1
            },
            Err(_) => !(tokens@.len() == 3 && valid_index_token(tokens@[0]@) && valid_index_token(
                tokens@[1]@,
            ) && valid_index_token(tokens@[2]@)),
        },
{
    if tokens.len() != 3 {
        return Err(ObjLoadError);
    }
    let ra = read_index(tokens[0]);
    let rb = read_index(tokens[1]);
    let rc = read_index(tokens[2]);
    match (ra, rb, rc) {
        (Ok(a), Ok(b), Ok(c)) => Ok((a, b, c)),
        _ => Err(ObjLoadError),
    }
}

/// The face table side of STL loading: the triangles come out of the file
/// as triples of vertex indices, and every index must name a vertex of the
/// table.  Reading the bytes themselves is the renderer's job.
pub struct StlLoader;

impl StlLoader {
    /// Check that every face references only existing vertices.
    pub fn faces_in_bounds(faces: &Vec<(usize, usize, usize)>, vertex_count: usize) -> (b: bool)
        ensures
            b == forall|i: int|
                0 <= i < faces@.len() ==> (#[trigger] faces@[i]).0 < vertex_count && faces@[i].1
                    < vertex_count && faces@[i].2 < vertex_count,
    {
        let mut i: usize = 0;
        while i < faces.len()
            invariant
                i <= faces@.len(),
                forall|m: int|
                    0 <= m < i ==> (#[trigger] faces@[m]).0 < vertex_count && faces@[m].1
                        < vertex_count && faces@[m].2 < vertex_count,
            decreases faces@.len() - i,
        {
            let f = faces[i];
            if f.0 >= vertex_count || f.1 >= vertex_count || f.2 >= vertex_count {
                return false;
            }
            i = i + 1;
        }
        true
    }
}

} // verus!
