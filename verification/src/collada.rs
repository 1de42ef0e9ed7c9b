//! The slice of a COLLADA document that the model converter reads:
//! geometry, mesh sources and triangle indices, with the whitespace-
//! separated index list parsed and de-interleaved here. The XML itself is
//! decoded outside and handed over as these records.

use vstd::prelude::*;

verus! {

/// A COLLADA document.
pub struct Collada {
    pub library_geometries: LibraryGeometry,
}

/// The document's geometries.
pub struct LibraryGeometry {
    pub geometires: Vec<Geometry>,
}

/// One named geometry.
pub struct Geometry {
    pub id: String,
    pub name: String,
    pub mesh: Mesh,
}

/// A mesh: its data sources and its triangles.
pub struct Mesh {
    pub sources: Vec<Source>,
    pub triangles: Triangles,
}

/// One data source of a mesh.
pub struct Source {
    pub id: String,
    pub float_array: FloatArray,
}

/// A float array as it stands in the document: its body still text.
pub struct FloatArray {
    pub id: String,
    pub count: u32,
    pub body: String,
}

/// The triangle section: per-vertex inputs and the interleaved index
/// list, still text.
pub struct Triangles {
    pub count: u32,
    pub inputs: Vec<TriangleInput>,
    pub indices: TriangelIndices,
}

/// One input of the triangle section.
pub struct TriangleInput {
    pub semantic: String,
    pub source: String,
    pub offset: u32,
}

/// The raw interleaved index list.
pub struct TriangelIndices {
    pub body: String,
}

/// One de-interleaved index pair.
#[derive(PartialEq, Eq, Clone, Hash, Debug)]
pub struct CleanIndex {
    pub vertex: usize,
    pub normal: usize,
}

/// A decimal digit.
pub open spec fn is_digit(c: char) -> bool {
    0x30 <= c as u32 <= 0x39
}

/// Scan a whitespace-separated list of decimal numbers from position `i`,
/// with the numbers read so far and the digits of the current one:
/// exactly the numbers the list holds, or nothing if the text is not such
/// a list (empty, a stray character, or two separators in a row).
pub open spec fn scan_indices(s: Seq<char>, i: int, acc: Seq<nat>, cur: Option<nat>) -> Option<Seq<nat>>
    decreases s.len() - i,
{
    if i >= s.len() {
        match cur {
            Some(v) => Some(acc.push(v)),
            None => None,
        }
    } else if is_digit(s[i]) {
        let d = (s[i] as u32 - 0x30) as nat;
        let base: nat = match cur {
            Some(v) => v,
            None => 0,
        };
        scan_indices(s, i + 1, acc, Some(base * 10 + d))
    } else if s[i] == ' ' {
        match cur {
            Some(v) => scan_indices(s, i + 1, acc.push(v), None),
            None => None,
        }
    } else {
        None
    }
}

/// The numbers of a whitespace-separated decimal list.
pub open spec fn parsed_indices(s: Seq<char>) -> Option<Seq<nat>> {
    scan_indices(s, 0, Seq::empty(), None)
}

/// Whatever a scan returns extends the numbers read so far.
proof fn lemma_scan_prefix(s: Seq<char>, i: int, acc: Seq<nat>, cur: Option<nat>)
    requires
        scan_indices(s, i, acc, cur) is Some,
    ensures
        scan_indices(s, i, acc, cur)->0.len() >= acc.len() + 1,
        scan_indices(s, i, acc, cur)->0.take(acc.len() as int) == acc,
    decreases s.len() - i,
{
    let vals = scan_indices(s, i, acc, cur)->0;
    if i >= s.len() {
        assert(vals.take(acc.len() as int) =~= acc);
    } else if is_digit(s[i]) {
        let d = (s[i] as u32 - 0x30) as nat;
        let base: nat = match cur {
            Some(v) => v,
            None => 0,
        };
        lemma_scan_prefix(s, i + 1, acc, Some(base * 10 + d));
    } else if s[i] == ' ' {
        match cur {
            Some(v) => {
                lemma_scan_prefix(s, i + 1, acc.push(v), None);
                assert(vals.take(acc.len() as int)
                    =~= vals.take((acc.len() + 1) as int).take(acc.len() as int));
                assert(acc.push(v).take(acc.len() as int) =~= acc);
            },
            None => {},
        }
    }
}

/// The number being read only grows: if the scan succeeds, some number at
/// or after the current position is at least the digits read so far.
proof fn lemma_scan_cur_bound(s: Seq<char>, i: int, acc: Seq<nat>, c: nat)
    requires
        scan_indices(s, i, acc, Some(c)) is Some,
    ensures
        exists|j: int| acc.len() <= j < scan_indices(s, i, acc, Some(c))->0.len()
            && scan_indices(s, i, acc, Some(c))->0[j] >= c,
    decreases s.len() - i,
{
    let vals = scan_indices(s, i, acc, Some(c))->0;
    if i >= s.len() {
        assert(vals[acc.len() as int] == c);
    } else if is_digit(s[i]) {
        let d = (s[i] as u32 - 0x30) as nat;
        lemma_scan_cur_bound(s, i + 1, acc, c * 10 + d);
        let j = choose|j: int| acc.len() <= j < vals.len() && vals[j] >= c * 10 + d;
        assert(c * 10 + d >= c) by (nonlinear_arith);
        assert(vals[j] >= c);
    } else if s[i] == ' ' {
        lemma_scan_prefix(s, i + 1, acc.push(c), None);
        assert(vals.take((acc.len() + 1) as int) == acc.push(c));
        assert(vals.take((acc.len() + 1) as int)[acc.len() as int] == c);
        assert(vals[acc.len() as int] == c);
    }
}

/// Parse a whitespace-separated decimal index list. `None` exactly when
/// the text is not such a list or a number in it does not fit the
/// machine's word.
pub fn parse_index_list(s: &str) -> (r: Option<Vec<usize>>)
    ensures
        match r {
            Some(v) => {
                let p = parsed_indices(s@);
                &&& p is Some
                &&& v@.len() == p->0.len()
                &&& forall|j: int| 0 <= j < v@.len() ==> v@[j] == p->0[j]
            },
            None => parsed_indices(s@) is None || exists|j: int|
                0 <= j < parsed_indices(s@)->0.len()
                && #[trigger] parsed_indices(s@)->0[j] > usize::MAX,
        },
{
    let n = s.unicode_len();
    let mut out: Vec<usize> = Vec::new();
    let mut cur: Option<usize> = None;
    let mut i: usize = 0;
    proof {
        assert(out@.map_values(|x: usize| x as nat) =~= Seq::<nat>::empty());
    }
    while i < n
        invariant
            i <= n,
            n == s@.len(),
            parsed_indices(s@) == scan_indices(s@, i as int, out@.map_values(|x: usize| x as nat),
                match cur {
                    Some(c) => Some(c as nat),
                    None => None::<nat>,
                }),
        decreases n - i,
    {
        let ghost acc = out@.map_values(|x: usize| x as nat);
        let c = s.get_char(i);
        let u = c as u32;
        if 0x30 <= u && u <= 0x39 {
            let d = (u - 0x30) as usize;
            let base = match cur {
                Some(v) => v,
                None => 0,
            };
            if base > usize::MAX / 10 || (base == usize::MAX / 10 && d > usize::MAX % 10) {
                proof {
                    assert(base as nat * 10 + d as nat > usize::MAX) by (nonlinear_arith)
                        requires
                            base > usize::MAX / 10 || (base == usize::MAX / 10
                                && d > usize::MAX % 10),
                            usize::MAX == usize::MAX / 10 * 10 + usize::MAX % 10,
                            d <= 9,
                    ;
                    if scan_indices(s@, i + 1 as int, acc, Some(base as nat * 10 + d as nat))
                        is Some {
                        lemma_scan_cur_bound(s@, i + 1, acc, base as nat * 10 + d as nat);
                        lemma_scan_prefix(s@, i + 1, acc, Some(base as nat * 10 + d as nat));
                    }
                }
                return None;
            }
            proof {
                assert(base * 10 + d <= usize::MAX) by (nonlinear_arith)
                    requires
                        base <= usize::MAX / 10,
                        d <= 9,
                        !(base > usize::MAX / 10 || (base == usize::MAX / 10
                            && d > usize::MAX % 10)),
                        usize::MAX == usize::MAX / 10 * 10 + usize::MAX % 10,
                ;
            }
            cur = Some(base * 10 + d);
        } else if c == ' ' {
            match cur {
                Some(v) => {
                    out.push(v);
                    cur = None;
                    proof {
                        assert(out@.map_values(|x: usize| x as nat) =~= acc.push(v as nat));
                    }
                },
                None => {
                    return None;
                },
            }
        } else {
            return None;
        }
        i = i + 1;
    }
    match cur {
        Some(v) => {
            out.push(v);
            proof {
                let ghost accf = out@.map_values(|x: usize| x as nat);
                assert(parsed_indices(s@) is Some);
                assert(accf =~= parsed_indices(s@)->0);
            }
            Some(out)
        },
        None => None,
    }
}

impl Triangles {
    /// De-interleave the index list: one `CleanIndex` per vertex, taking
    /// the first two offsets (position and normal) of each group.
    pub fn clean_indices(&self) -> (r: Vec<CleanIndex>)
        requires
            parsed_indices(self.indices.body@) is Some,
            forall|j: int| 0 <= j < parsed_indices(self.indices.body@)->0.len()
                ==> #[trigger] parsed_indices(self.indices.body@)->0[j] <= usize::MAX,
            self.inputs@.len() >= 2,
            parsed_indices(self.indices.body@)->0.len() as int % (self.inputs@.len() as int) == 0,
        ensures
            ({
                let p = parsed_indices(self.indices.body@)->0;
                let stride = self.inputs@.len() as int;
                &&& r@.len() == p.len() as int / stride
                &&& forall|k: int| 0 <= k < r@.len()
                    ==> (#[trigger] r@[k]).vertex == p[k * stride]
                        && r@[k].normal == p[k * stride + 1]
            }),
    {
        let ghost p = parsed_indices(self.indices.body@)->0;
        let idx = match parse_index_list(self.indices.body.as_str()) {
            Some(v) => v,
            None => {
                proof {
                    assert(false);
                }
                Vec::new()
            },
        };
        let stride = self.inputs.len();
        let ghost m = p.len() as int / stride as int;
        proof {
            vstd::arithmetic::div_mod::lemma_fundamental_div_mod(p.len() as int, stride as int);
            assert(p.len() == m * stride);
        }
        let mut indices: Vec<CleanIndex> = Vec::new();
        let mut i: usize = 0;
        let ghost mut k: int = 0;
        while idx.len() - i >= stride
            invariant
                stride == self.inputs@.len(),
                stride >= 2,
                idx@.len() == p.len(),
                forall|j: int| 0 <= j < idx@.len() ==> idx@[j] == p[j],
                p.len() == m * stride,
                i == k * stride,
                0 <= k <= m,
                i <= idx@.len(),
                indices@.len() == k,
                forall|kk: int| 0 <= kk < k ==> (#[trigger] indices@[kk]).vertex == p[kk * stride]
                    && indices@[kk].normal == p[kk * stride + 1],
            decreases idx@.len() - i,
        {
            indices.push(CleanIndex { vertex: idx[i], normal: idx[i + 1] });
            proof {
                assert((k + 1) * stride == k * stride + stride) by (nonlinear_arith);
                assert(k + 1 <= m) by (nonlinear_arith)
                    requires
                        (k + 1) * stride <= m * stride,
                        stride >= 2,
                ;
            }
            i = i + stride;
            proof {
                k = k + 1;
            }
        }
        proof {
            assert(k == m) by (nonlinear_arith)
                requires
                    k * stride + stride > m * stride,
                    0 <= k <= m,
                    stride >= 2,
            ;
        }
        indices
    }
}

} // verus!
