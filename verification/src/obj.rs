use vstd::prelude::*;

verus! {

/// A mesh face: an ordered list of indices into the owning mesh's vertex
/// list. Only faces with exactly three indices are rasterizable; larger
/// polygons are split into triangle fans at load time.
#[derive(Debug, Clone)]
pub struct Face {
    pub vertices: Vec<usize>,
}

/// A 1-based OBJ face index converted to 0-based: a positive index counts
/// from the front of the vertex list, any other counts back from its current
/// end.
pub open spec fn obj_index(raw: int, vertex_count: int) -> int {
    if raw > 0 {
        raw - 1
    } else {
        vertex_count + raw
    }
}

/// Convert an OBJ face index to a 0-based vertex-list index; None when the
/// converted index is negative or too large to represent.
pub fn obj_vertex_index(raw: i64, vertex_count: usize) -> (r: Option<usize>)
    ensures
        0 <= obj_index(raw as int, vertex_count as int) <= usize::MAX ==> r == Some(
            obj_index(raw as int, vertex_count as int) as usize,
        ),
        !(0 <= obj_index(raw as int, vertex_count as int) <= usize::MAX) ==> r is None,
{
    if raw > 0 {
        let v = (raw - 1) as u64;
        if v <= usize::MAX as u64 {
            Some(v as usize)
        } else {
            None
        }
    } else {
        let s: i128 = vertex_count as i128 + raw as i128;
        if 0 <= s && s <= usize::MAX as i128 {
            Some(s as usize)
        } else {
            None
        }
    }
}

/// Where the leading token of a face slot ends: the index of the first '/'
/// separator, or the slot's length if it has none.
pub open spec fn head_end(s: Seq<u8>) -> int
    decreases s.len(),
{
    if s.len() == 0 {
        0
    } else if s[0] == 47 {
        0
    } else {
        1 + head_end(s.skip(1))
    }
}

/// The leading token of a face slot: the bytes before the first '/'.
pub open spec fn slot_head(s: Seq<u8>) -> Seq<u8> {
    s.take(head_end(s))
}

pub open spec fn is_ascii_digit(b: u8) -> bool {
    48 <= b <= 57
}

/// The value of a string of decimal digits, most significant first.
pub open spec fn digits_val(s: Seq<u8>) -> int
    decreases s.len(),
{
    if s.len() == 0 {
        0
    } else {
        digits_val(s.drop_last()) * 10 + (s.last() - 48)
    }
}

/// A well-formed index token: an optional leading minus sign followed by at
/// least one decimal digit.
pub open spec fn valid_index_token(s: Seq<u8>) -> bool {
    if s.len() > 0 && s[0] == 45 {
        s.len() > 1 && forall|i: int| 1 <= i < s.len() ==> is_ascii_digit(#[trigger] s[i])
    } else {
        s.len() > 0 && forall|i: int| 0 <= i < s.len() ==> is_ascii_digit(#[trigger] s[i])
    }
}

/// The digits of an index token, its sign stripped.
pub open spec fn token_digits(s: Seq<u8>) -> Seq<u8> {
    if s.len() > 0 && s[0] == 45 {
        s.skip(1)
    } else {
        s
    }
}

/// The signed value of a well-formed index token.
pub open spec fn token_val(s: Seq<u8>) -> int {
    if s.len() > 0 && s[0] == 45 {
        -digits_val(s.skip(1))
    } else {
        digits_val(s)
    }
}

proof fn lemma_head_end_props(s: Seq<u8>)
    ensures
        0 <= head_end(s) <= s.len(),
        forall|i: int| 0 <= i < head_end(s) ==> s[i] != 47,
        head_end(s) < s.len() ==> s[head_end(s)] == 47,
    decreases s.len(),
{
    if s.len() > 0 && s[0] != 47 {
        lemma_head_end_props(s.skip(1));
        assert forall|i: int| 0 <= i < head_end(s) implies s[i] != 47 by {
            if i > 0 {
                assert(s.skip(1)[i - 1] == s[i]);
            }
        }
        if head_end(s) < s.len() {
            assert(s.skip(1)[head_end(s) - 1] == s[head_end(s)]);
        }
    }
}

proof fn lemma_digits_val_nonneg(s: Seq<u8>)
    requires
        forall|i: int| 0 <= i < s.len() ==> is_ascii_digit(#[trigger] s[i]),
    ensures
        digits_val(s) >= 0,
    decreases s.len(),
{
    if s.len() > 0 {
        lemma_digits_val_nonneg(s.drop_last());
    }
}

/// For a digit string, the value of a prefix never exceeds the value of the
/// whole.
proof fn lemma_digits_val_prefix_le(s: Seq<u8>, n: int)
    requires
        forall|i: int| 0 <= i < s.len() ==> is_ascii_digit(#[trigger] s[i]),
        0 <= n <= s.len(),
    ensures
        digits_val(s.take(n)) <= digits_val(s),
    decreases s.len() - n,
{
    if n < s.len() {
        lemma_digits_val_prefix_le(s, n + 1);
        assert(s.take(n + 1).drop_last() =~= s.take(n));
        lemma_digits_val_nonneg(s.take(n));
        assert(digits_val(s.take(n + 1)) == digits_val(s.take(n)) * 10 + (s[n] - 48));
        assert(digits_val(s.take(n)) * 10 >= digits_val(s.take(n))) by (nonlinear_arith)
            requires
                digits_val(s.take(n)) >= 0,
        ;
    } else {
        assert(s.take(n) =~= s);
    }
}

/// Parse the leading vertex-index token of a face slot (the bytes before
/// the first '/', as in "7/2/3" or "-4"): the token's signed decimal value,
/// or None when the token is not an optional minus sign followed by digits,
/// or its magnitude does not fit.
pub fn parse_face_slot(slot: &[u8]) -> (r: Option<i64>)
    ensures
        r is Some <==> (valid_index_token(slot_head(slot@)) && digits_val(
            token_digits(slot_head(slot@)),
        ) <= i64::MAX),
        r is Some ==> r == Some(token_val(slot_head(slot@)) as i64),
{
    let ghost tok = slot_head(slot@);
    proof {
        lemma_head_end_props(slot@);
    }
    let n = slot.len();
    let mut k: usize = 0;
    while k < n && slot[k] != 47
        invariant
            0 <= k <= n == slot@.len(),
            forall|i: int| 0 <= i < k ==> slot@[i] != 47,
        decreases n - k,
    {
        k += 1;
    }
    proof {
        if head_end(slot@) < k {
            assert(slot@[head_end(slot@)] != 47);
        }
        if k < head_end(slot@) {
            assert(slot@[k as int] != 47);
        }
        assert(k == head_end(slot@));
        assert(forall|i: int| 0 <= i < k ==> tok[i] == slot@[i]);
        assert(tok.len() == k);
    }

    let neg = k > 0 && slot[0] == 45;
    let start: usize = if neg {
        1
    } else {
        0
    };
    let ghost dig = token_digits(tok);
    proof {
        if neg {
            assert(dig =~= slot@.subrange(1, k as int));
        } else {
            assert(dig =~= slot@.subrange(0, k as int));
        }
    }
    if start >= k {
        return None;
    }

    let mut acc: i64 = 0;
    let mut i: usize = start;
    while i < k
        invariant
            start <= i <= k <= n == slot@.len(),
            tok == slot_head(slot@),
            tok.len() == k,
            forall|j: int| 0 <= j < k ==> tok[j] == slot@[j],
            neg <==> (k > 0 && slot@[0] == 45),
            start == (if neg {
                1int
            } else {
                0int
            }),
            dig == token_digits(tok),
            dig == slot@.subrange(start as int, k as int),
            dig.len() == k - start,
            forall|j: int| start <= j < i ==> is_ascii_digit(#[trigger] slot@[j]),
            0 <= acc,
            acc as int == digits_val(slot@.subrange(start as int, i as int)),
        decreases k - i,
    {
        let b = slot[i];
        if b < 48 || b > 57 {
            proof {
                assert(tok[i as int] == slot@[i as int]);
                assert(!valid_index_token(tok)) by {
                    if valid_index_token(tok) {
                        assert(is_ascii_digit(tok[i as int]));
                    }
                }
            }
            return None;
        }
        let d = (b - 48) as i64;
        if acc > (i64::MAX - d) / 10 {
            proof {
                assert(slot@.subrange(start as int, i as int + 1).drop_last() =~= slot@.subrange(
                    start as int,
                    i as int,
                ));
                assert(digits_val(slot@.subrange(start as int, i as int + 1)) == acc * 10 + d);
                assert(acc * 10 + d > i64::MAX) by (nonlinear_arith)
                    requires
                        acc > (i64::MAX - d) / 10,
                        0 <= d <= 9,
                        acc >= 0,
                ;
                if valid_index_token(tok) {
                    assert forall|j: int| 0 <= j < dig.len() implies is_ascii_digit(
                        #[trigger] dig[j],
                    ) by {
                        assert(dig[j] == tok[j + start as int]);
                    }
                    assert(slot@.subrange(start as int, i as int + 1) =~= dig.take(
                        i + 1 - start as int,
                    ));
                    lemma_digits_val_prefix_le(dig, i + 1 - start as int);
                    assert(digits_val(dig) > i64::MAX);
                }
            }
            return None;
        }
        proof {
            assert(acc * 10 + d <= i64::MAX) by (nonlinear_arith)
                requires
                    acc <= (i64::MAX - d) / 10,
                    0 <= d <= 9,
                    acc >= 0,
            ;
            assert(slot@.subrange(start as int, i as int + 1).drop_last() =~= slot@.subrange(
                start as int,
                i as int,
            ));
        }
        acc = acc * 10 + d;
        i += 1;
    }

    proof {
        assert(slot@.subrange(start as int, k as int) == dig);
        assert forall|j: int| 0 <= j < dig.len() implies is_ascii_digit(#[trigger] dig[j]) by {
            assert(dig[j] == slot@[j + start as int]);
        }
        assert forall|j: int| start <= j < tok.len() implies is_ascii_digit(#[trigger] tok[j]) by {
            assert(tok[j] == slot@[j]);
        }
        assert(valid_index_token(tok));
        if neg {
            assert(tok.skip(1) =~= dig);
        }
    }
    if neg {
        Some(-acc)
    } else {
        Some(acc)
    }
}

/// Split a polygon's index list into a fan of triangles around its first
/// index: indices (i0, i1, ..., in-1) become the faces (i0, ik, ik+1) for
/// each k from 1 to n-2. Fewer than three indices yield no faces.
pub fn fan_triangulate(indices: &Vec<usize>) -> (faces: Vec<Face>)
    ensures
        indices@.len() < 3 ==> faces@.len() == 0,
        indices@.len() >= 3 ==> faces@.len() == indices@.len() - 2,
        forall|k: int|
            0 <= k < faces@.len() ==> {
                &&& (#[trigger] faces@[k]).vertices@.len() == 3
                &&& faces@[k].vertices@[0] == indices@[0]
                &&& faces@[k].vertices@[1] == indices@[k + 1]
                &&& faces@[k].vertices@[2] == indices@[k + 2]
            },
{
    let mut faces: Vec<Face> = Vec::new();
    if indices.len() < 3 {
        return faces;
    }
    let n = indices.len();
    let mut i: usize = 1;
    while i + 1 < n
        invariant
            3 <= n == indices@.len(),
            1 <= i <= n - 1,
            faces@.len() == i - 1,
            forall|k: int|
                0 <= k < faces@.len() ==> {
                    &&& (#[trigger] faces@[k]).vertices@.len() == 3
                    &&& faces@[k].vertices@[0] == indices@[0]
                    &&& faces@[k].vertices@[1] == indices@[k + 1]
                    &&& faces@[k].vertices@[2] == indices@[k + 2]
                },
        decreases n - i,
    {
        let mut v: Vec<usize> = Vec::new();
        v.push(indices[0]);
        v.push(indices[i]);
        v.push(indices[i + 1]);
        faces.push(Face { vertices: v });
        i += 1;
    }
    faces
}

impl Face {
    /// The three vertex indices of a rasterizable face: Some exactly when
    /// the face has three indices and each is a valid index into a vertex
    /// list of the given length.
    pub fn triangle_indices(&self, vertex_count: usize) -> (r: Option<(usize, usize, usize)>)
        ensures
            r is Some <==> (self.vertices@.len() == 3 && self.vertices@[0] < vertex_count
                && self.vertices@[1] < vertex_count && self.vertices@[2] < vertex_count),
            r is Some ==> r == Some(
                (self.vertices@[0], self.vertices@[1], self.vertices@[2]),
            ),
    {
        if self.vertices.len() != 3 {
            return None;
        }
        let a = self.vertices[0];
        let b = self.vertices[1];
        let c = self.vertices[2];
        if a < vertex_count && b < vertex_count && c < vertex_count {
            Some((a, b, c))
        } else {
            None
        }
    }
}

} // verus!
