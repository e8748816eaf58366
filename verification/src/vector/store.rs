//! The vector store: embeddings in one file, each found by its number.
//!
//! The file holds the dimension and the number of vectors, four little-endian bytes each, then the
//! components of all vectors in order, four little-endian bytes each. A component is the bits of a
//! single-precision number.

use crate::digits::{decimal, decimal_text};
use crate::float::{f32_rank, rank};
use vstd::bytes::*;
use vstd::prelude::*;
use vstd::slice::slice_subrange;
use vstd::string::*;

verus! {

/// Size of the header in bytes.
pub const HEADER_BYTES: usize = 8;

/// The number in the four bytes at `at`.
pub open spec fn number_at(bytes: Seq<u8>, at: int) -> u32 {
    spec_u32_from_le_bytes(bytes.subrange(at, at + 4))
}

/// How many bytes a store with this header has at least.
pub open spec fn store_size(dim: nat, num_vecs: nat) -> nat {
    8 + num_vecs * dim * 4
}

/// Vector number `id` of a store of dimension `dim`.
pub open spec fn vector_at(bytes: Seq<u8>, dim: nat, id: nat) -> Seq<u32> {
    Seq::new(dim, |j: int| number_at(bytes, 8 + (id * dim + j) * 4))
}

/// Why bytes are no vector store.
pub enum StoreError {
    /// There is no whole header.
    TooSmall,
    /// There are fewer bytes than the header says.
    SizeMismatch { dim: u32, num_vecs: u32, got: usize },
}

impl StoreError {
    pub open spec fn text(&self) -> Seq<char> {
        match *self {
            StoreError::TooSmall => "vectors.bin too small — missing header"@,
            StoreError::SizeMismatch { dim, num_vecs, got } => "vectors.bin size mismatch: expected "@
                + decimal_text(store_size(dim as nat, num_vecs as nat)) + " bytes, got "@
                + decimal_text(got as nat),
        }
    }

    pub fn message(&self) -> (r: String)
        ensures
            r@ == self.text(),
    {
        match *self {
            StoreError::TooSmall => "vectors.bin too small — missing header".to_owned(),
            StoreError::SizeMismatch { dim, num_vecs, got } => {
                let mut r: String = "vectors.bin size mismatch: expected ".to_owned();
                proof {
                    lemma_size_bound(dim as nat, num_vecs as nat);
                }
                let expected: u128 = 8 + (num_vecs as u128) * (dim as u128) * 4;
                r.append(decimal_wide(expected).as_str());
                r.append(" bytes, got ");
                r.append(decimal(got as u64).as_str());
                r
            },
        }
    }
}

proof fn lemma_size_bound(dim: nat, num_vecs: nat)
    requires
        dim <= u32::MAX,
        num_vecs <= u32::MAX,
    ensures
        num_vecs * dim <= u32::MAX * u32::MAX,
{
    assert(num_vecs * dim <= u32::MAX * u32::MAX) by (nonlinear_arith)
        requires
            dim <= u32::MAX,
            num_vecs <= u32::MAX,
    ;
}

/// Writes `n` in decimal.
fn decimal_wide(n: u128) -> (r: String)
    ensures
        r@ == decimal_text(n as nat),
    decreases n,
{
    if n < 10 {
        decimal(n as u64)
    } else {
        let mut s = decimal_wide(n / 10);
        s.append(decimal((n % 10) as u64).as_str());
        proof {
            let d = (n % 10) as nat;
            assert(decimal_text(d) =~= seq![crate::digits::digit(d)]);
            assert(decimal_text(n as nat) =~= decimal_text(n as nat / 10) + decimal_text(d));
        }
        s
    }
}

/// A vector store over the bytes of its file.
pub struct VectorStore<'a> {
    pub bytes: &'a [u8],
    pub dim: usize,
    pub num_vecs: usize,
}

impl<'a> VectorStore<'a> {
    /// The fields are those of the header, and all vectors are there.
    pub open spec fn wf(&self) -> bool {
        &&& self.bytes@.len() >= 8
        &&& self.dim == number_at(self.bytes@, 0)
        &&& self.num_vecs == number_at(self.bytes@, 4)
        &&& self.bytes@.len() >= store_size(self.dim as nat, self.num_vecs as nat)
    }

    /// Reads the header.
    pub fn open(bytes: &'a [u8]) -> (r: Result<Self, StoreError>)
        ensures
            match r {
                Ok(s) => s.wf() && s.bytes == bytes,
                Err(StoreError::TooSmall) => bytes@.len() < 8,
                Err(StoreError::SizeMismatch { dim, num_vecs, got }) => {
                    &&& bytes@.len() >= 8
                    &&& dim == number_at(bytes@, 0)
                    &&& num_vecs == number_at(bytes@, 4)
                    &&& got == bytes@.len() < store_size(dim as nat, num_vecs as nat)
                },
            },
    {
        if bytes.len() < HEADER_BYTES {
            return Err(StoreError::TooSmall);
        }
        let dim: u32 = u32_from_le_bytes(slice_subrange(bytes, 0, 4));
        let num_vecs: u32 = u32_from_le_bytes(slice_subrange(bytes, 4, 8));
        proof {
            lemma_size_bound(dim as nat, num_vecs as nat);
        }
        let expected: u128 = 8 + (num_vecs as u128) * (dim as u128) * 4;
        if (bytes.len() as u128) < expected {
            return Err(StoreError::SizeMismatch { dim, num_vecs, got: bytes.len() });
        }
        Ok(VectorStore { bytes, dim: dim as usize, num_vecs: num_vecs as usize })
    }

    /// Vector number `id`.
    pub fn get(&self, id: u32) -> (r: Vec<u32>)
        requires
            self.wf(),
            id < self.num_vecs,
        ensures
            r@ == vector_at(self.bytes@, self.dim as nat, id as nat),
    {
        let dim: usize = self.dim;
        let size: usize = self.bytes.len();
        proof {
            let n = self.num_vecs as int;
            let d = dim as int;
            assert(0 <= id * d && (id + 1) * d <= n * d && id * d + d == (id + 1) * d) by (nonlinear_arith)
                requires
                    0 <= id < n,
                    0 <= d,
            ;
        }
        let first: usize = id as usize * dim;
        let mut v: Vec<u32> = Vec::new();
        let mut j: usize = 0;
        while j < dim
            invariant
                j <= dim == self.dim,
                first == id * dim,
                size == self.bytes@.len(),
                8 + (first + dim) * 4 <= size,
                v@.len() == j,
                forall|k: int|
                    0 <= k < j ==> #[trigger] v@[k] == number_at(
                        self.bytes@,
                        8 + (id * dim + k) * 4,
                    ),
            decreases dim - j,
        {
            let at: usize = HEADER_BYTES + (first + j) * 4;
            v.push(u32_from_le_bytes(slice_subrange(self.bytes, at, at + 4)));
            j += 1;
        }
        proof {
            assert(v@ =~= vector_at(self.bytes@, dim as nat, id as nat));
        }
        v
    }
}

// ── writing ──────────────────────────────────────────────────────────────────

/// The bytes of the components of a vector.
pub open spec fn vector_bytes(v: Seq<u32>) -> Seq<u8>
    decreases v.len(),
{
    if v.len() == 0 {
        Seq::empty()
    } else {
        vector_bytes(v.drop_last()) + spec_u32_to_le_bytes(v.last())
    }
}

/// The bytes of all vectors.
pub open spec fn vectors_bytes(vectors: Seq<Vec<u32>>) -> Seq<u8>
    decreases vectors.len(),
{
    if vectors.len() == 0 {
        Seq::empty()
    } else {
        vectors_bytes(vectors.drop_last()) + vector_bytes(vectors.last()@)
    }
}

/// The bytes of a store of these vectors.
pub open spec fn store_bytes(dim: u32, vectors: Seq<Vec<u32>>) -> Seq<u8> {
    spec_u32_to_le_bytes(dim) + spec_u32_to_le_bytes(vectors.len() as u32) + vectors_bytes(vectors)
}

/// All vectors have this dimension.
pub open spec fn all_of_dim(dim: int, vectors: Seq<Vec<u32>>) -> bool {
    forall|i: int| 0 <= i < vectors.len() ==> (#[trigger] vectors[i])@.len() == dim
}

/// Whether all vectors have this dimension.
pub fn same_dim(dim: usize, vectors: &Vec<Vec<u32>>) -> (r: bool)
    ensures
        r == all_of_dim(dim as int, vectors@),
{
    let mut i: usize = 0;
    while i < vectors.len()
        invariant
            i <= vectors@.len(),
            forall|k: int| 0 <= k < i ==> (#[trigger] vectors@[k])@.len() == dim,
        decreases vectors@.len() - i,
    {
        if vectors[i].len() != dim {
            return false;
        }
        i += 1;
    }
    true
}

/// There are more vectors than a store can number.
pub struct TooManyVectors {
    pub count: usize,
}

impl TooManyVectors {
    pub fn message(&self) -> (r: String)
        ensures
            r@ == "too many vectors: "@ + decimal_text(self.count as nat) + " exceeds u32::MAX"@,
    {
        let mut r: String = "too many vectors: ".to_owned();
        r.append(decimal(self.count as u64).as_str());
        r.append(" exceeds u32::MAX");
        r
    }
}

impl<'a> VectorStore<'a> {
    /// The bytes of a store of the vectors, for its file.
    pub fn write(dim: u32, vectors: &Vec<Vec<u32>>) -> (r: Result<Vec<u8>, TooManyVectors>)
        requires
            all_of_dim(dim as int, vectors@),
        ensures
            match r {
                Ok(bytes) => vectors@.len() <= u32::MAX && bytes@ == store_bytes(dim, vectors@),
                Err(e) => vectors@.len() > u32::MAX && e.count == vectors@.len(),
            },
    {
        if vectors.len() > u32::MAX as usize {
            return Err(TooManyVectors { count: vectors.len() });
        }
        let mut bytes: Vec<u8> = u32_to_le_bytes(dim);
        let mut count: Vec<u8> = u32_to_le_bytes(vectors.len() as u32);
        bytes.append(&mut count);
        let ghost head = bytes@;
        let mut i: usize = 0;
        proof {
            assert(bytes@ =~= head + vectors_bytes(vectors@.take(0)));
        }
        while i < vectors.len()
            invariant
                i <= vectors@.len(),
                bytes@ == head + vectors_bytes(vectors@.take(i as int)),
            decreases vectors@.len() - i,
        {
            let v = &vectors[i];
            let ghost before = bytes@;
            let mut j: usize = 0;
            proof {
                assert(vectors@.take(i + 1).drop_last() =~= vectors@.take(i as int));
                assert(before + vector_bytes(v@.take(0)) =~= before);
            }
            while j < v.len()
                invariant
                    j <= v@.len(),
                    bytes@ == before + vector_bytes(v@.take(j as int)),
                decreases v@.len() - j,
            {
                proof {
                    assert(v@.take(j + 1).drop_last() =~= v@.take(j as int));
                }
                let ghost was = bytes@;
                let mut part: Vec<u8> = u32_to_le_bytes(v[j]);
                bytes.append(&mut part);
                proof {
                    assert(bytes@ =~= before + vector_bytes(v@.take(j + 1)));
                }
                j += 1;
            }
            proof {
                assert(v@.take(j as int) =~= v@);
                assert(bytes@ =~= head + vectors_bytes(vectors@.take(i + 1)));
            }
            i += 1;
        }
        proof {
            assert(vectors@.take(i as int) =~= vectors@);
            assert(bytes@ =~= store_bytes(dim, vectors@));
        }
        Ok(bytes)
    }
}

proof fn lemma_vector_bytes(v: Seq<u32>, j: int)
    ensures
        vector_bytes(v).len() == v.len() * 4,
        0 <= j < v.len() ==> vector_bytes(v).subrange(j * 4, j * 4 + 4) == spec_u32_to_le_bytes(v[j]),
    decreases v.len(),
{
    lemma_auto_spec_u32_to_from_le_bytes();
    if v.len() > 0 {
        let before = v.drop_last();
        lemma_vector_bytes(before, j);
        let last = spec_u32_to_le_bytes(v.last());
        assert(last.len() == 4);
        if 0 <= j < before.len() {
            assert(vector_bytes(v).subrange(j * 4, j * 4 + 4) =~= vector_bytes(before).subrange(
                j * 4,
                j * 4 + 4,
            ));
        } else if j == before.len() {
            assert(vector_bytes(v).subrange(j * 4, j * 4 + 4) =~= last);
        }
    }
}

proof fn lemma_vectors_bytes(dim: int, vectors: Seq<Vec<u32>>, i: int)
    requires
        dim >= 0,
        all_of_dim(dim, vectors),
    ensures
        vectors_bytes(vectors).len() == vectors.len() * dim * 4,
        0 <= i < vectors.len() ==> 0 <= i * dim * 4 && (i + 1) * dim * 4 <= vectors.len() * dim * 4
            && vectors_bytes(vectors).subrange(i * dim * 4, (i + 1) * dim * 4) == vector_bytes(
            vectors[i]@,
        ),
    decreases vectors.len(),
{
    if vectors.len() > 0 {
        let before = vectors.drop_last();
        let n = before.len() as int;
        assert(all_of_dim(dim, before)) by {
            assert forall|k: int| 0 <= k < before.len() implies (#[trigger] before[k])@.len()
                == dim by {
                assert(before[k] == vectors[k]);
            }
        }
        lemma_vectors_bytes(dim, before, i);
        lemma_vector_bytes(vectors.last()@, 0);
        assert(vectors.last() == vectors[n]);
        assert((n + 1) * dim * 4 == n * dim * 4 + dim * 4 && n * dim * 4 >= 0) by (nonlinear_arith)
            requires
                n >= 0,
                dim >= 0,
        ;
        if 0 <= i < n {
            assert((i + 1) * dim * 4 <= n * dim * 4 && i * dim * 4 <= (i + 1) * dim * 4) by (nonlinear_arith)
                requires
                    0 <= i < n,
                    dim >= 0,
            ;
            assert(vectors_bytes(vectors).subrange(i * dim * 4, (i + 1) * dim * 4)
                =~= vectors_bytes(before).subrange(i * dim * 4, (i + 1) * dim * 4));
        } else if i == n {
            assert(vectors_bytes(vectors).subrange(i * dim * 4, (i + 1) * dim * 4)
                =~= vector_bytes(vectors[i]@));
        }
    } else {
        assert(vectors.len() * dim * 4 == 0) by (nonlinear_arith)
            requires
                vectors.len() == 0,
        ;
    }
}

/// What was written is read back: the bytes of a store of vectors open as a store of their number
/// and dimension, in which each is found under its own number.
pub proof fn law_store_gives_back_vectors(dim: u32, vectors: Seq<Vec<u32>>, i: int)
    requires
        all_of_dim(dim as int, vectors),
        vectors.len() <= u32::MAX,
    ensures
        ({
            let bytes = store_bytes(dim, vectors);
            &&& bytes.len() == store_size(dim as nat, vectors.len())
            &&& number_at(bytes, 0) == dim
            &&& number_at(bytes, 4) == vectors.len()
            &&& 0 <= i < vectors.len() ==> vector_at(bytes, dim as nat, i as nat) == vectors[i]@
        }),
{
    lemma_auto_spec_u32_to_from_le_bytes();
    let bytes = store_bytes(dim, vectors);
    let n = vectors.len() as u32;
    lemma_vectors_bytes(dim as int, vectors, i);
    assert(bytes.subrange(0, 4) =~= spec_u32_to_le_bytes(dim));
    assert(bytes.subrange(4, 8) =~= spec_u32_to_le_bytes(n));
    assert(vectors.len() * dim * 4 == store_size(dim as nat, vectors.len()) - 8);
    if 0 <= i < vectors.len() {
        let v = vectors[i]@;
        let d = dim as int;
        assert(0 <= i * d * 4 <= (i + 1) * d * 4) by (nonlinear_arith)
            requires
                0 <= i,
                0 <= d,
        ;
        assert(bytes.subrange(8 + i * d * 4, 8 + (i + 1) * d * 4) =~= vectors_bytes(vectors).subrange(
            i * d * 4,
            (i + 1) * d * 4,
        ));
        let own = vector_bytes(v);
        assert forall|j: int| 0 <= j < d implies #[trigger] vector_at(bytes, dim as nat, i as nat)[j]
            == v[j] by {
            lemma_vector_bytes(v, j);
            assert(8 + (i * d + j) * 4 == 8 + i * d * 4 + j * 4 && (i + 1) * d * 4 == i * d * 4 + d
                * 4) by (nonlinear_arith);
            let at = 8 + (i * d + j) * 4;
            assert(bytes.subrange(at, at + 4) =~= own.subrange(j * 4, j * 4 + 4));
        }
        assert(vector_at(bytes, dim as nat, i as nat) =~= v);
    }
}

// ── ranking ──────────────────────────────────────────────────────────────────

/// Place `a` comes before place `b`: its number is larger, or as large and it stands earlier.
pub open spec fn ranks_before(keys: Seq<u32>, a: int, b: int) -> bool {
    f32_rank(keys[a]) > f32_rank(keys[b]) || (f32_rank(keys[a]) == f32_rank(keys[b]) && a < b)
}

/// `order` holds the places of all numbers once, the largest number first, and of equal ones the
/// earlier first.
pub open spec fn is_descending_order(keys: Seq<u32>, order: Seq<usize>) -> bool {
    &&& order.len() == keys.len()
    &&& forall|i: int| 0 <= i < order.len() ==> #[trigger] order[i] < keys.len()
    &&& forall|i: int, j: int|
        0 <= i < j < order.len() ==> ranks_before(
            keys,
            (#[trigger] order[i]) as int,
            (#[trigger] order[j]) as int,
        )
    &&& forall|p: usize| 0 <= p < keys.len() ==> #[trigger] order.contains(p)
}

/// Orders places by their numbers, the largest first; equal ones keep their order.
pub fn descending_order(keys: &Vec<u32>) -> (r: Vec<usize>)
    ensures
        is_descending_order(keys@, r@),
{
    let mut order: Vec<usize> = Vec::new();
    let mut i: usize = 0;
    while i < keys.len()
        invariant
            i <= keys@.len(),
            is_descending_order(keys@.take(i as int), order@),
        decreases keys@.len() - i,
    {
        let ghost known = keys@.take(i as int);
        let ghost next = keys@.take(i + 1);
        let key: i64 = rank(keys[i]);
        let mut pos: usize = order.len();
        while pos > 0 && rank(keys[order[pos - 1]]) < key
            invariant
                i < keys@.len(),
                known == keys@.take(i as int),
                is_descending_order(known, order@),
                pos <= order@.len(),
                key == f32_rank(keys@[i as int]),
                forall|j: int|
                    pos <= j < order@.len() ==> f32_rank(keys@[(#[trigger] order@[j]) as int])
                        < key,
            decreases pos,
        {
            pos -= 1;
        }
        let ghost before = order@;
        order.insert(pos, i);
        proof {
            assert(order@ == before.insert(pos as int, i));
            assert forall|a: int, b: int| 0 <= a < b < order@.len() implies ranks_before(
                next,
                (#[trigger] order@[a]) as int,
                (#[trigger] order@[b]) as int,
            ) by {
                if a < pos && pos > 0 {
                    let last = before[pos - 1] as int;
                    assert(f32_rank(keys@[last]) >= key);
                    if a < pos - 1 {
                        assert(ranks_before(known, before[a] as int, last));
                    }
                }
                let x = if a < pos {
                    a
                } else {
                    a - 1
                };
                let y = if b < pos {
                    b
                } else {
                    b - 1
                };
                if a != pos && b != pos {
                    assert(ranks_before(known, before[x] as int, before[y] as int));
                }
            }
            assert forall|p: usize| 0 <= p < next.len() implies #[trigger] order@.contains(p) by {
                if p == i {
                    assert(order@[pos as int] == i);
                } else {
                    assert(before.contains(p));
                    let j = before.index_of(p);
                    if j < pos {
                        assert(order@[j] == p);
                    } else {
                        assert(order@[j + 1] == p);
                    }
                }
            }
        }
        i += 1;
    }
    proof {
        assert(keys@.take(i as int) =~= keys@);
    }
    order
}

/// There is only one such order.
pub proof fn law_order_is_unique(keys: Seq<u32>, a: Seq<usize>, b: Seq<usize>)
    requires
        is_descending_order(keys, a),
        is_descending_order(keys, b),
    ensures
        a == b,
{
    if a != b {
        assert(a.len() == b.len());
        assert(exists|i: int| 0 <= i < a.len() && a[i] != b[i]) by {
            if forall|i: int| 0 <= i < a.len() ==> a[i] == b[i] {
                assert(a =~= b);
            }
        }
        lemma_first_difference(keys, a, b, 0);
    }
}

proof fn lemma_first_difference(keys: Seq<u32>, a: Seq<usize>, b: Seq<usize>, i: int)
    requires
        is_descending_order(keys, a),
        is_descending_order(keys, b),
        0 <= i <= a.len(),
        forall|k: int| 0 <= k < i ==> a[k] == b[k],
    ensures
        forall|k: int| 0 <= k < a.len() ==> a[k] == b[k],
    decreases a.len() - i,
{
    if i < a.len() {
        assert(b.contains(a[i]));
        let j = b.index_of(a[i]);
        assert(a.contains(b[i]));
        let k = a.index_of(b[i]);
        if j < i {
            assert(a[j] == b[j]);
            assert(ranks_before(keys, a[j] as int, a[i] as int));
        }
        if k < i {
            assert(a[k] == b[k]);
            assert(ranks_before(keys, b[k] as int, b[i] as int));
        }
        if j > i && k > i {
            assert(ranks_before(keys, b[i] as int, b[j] as int));
            assert(ranks_before(keys, a[i] as int, a[k] as int));
        }
        assert(a[i] == b[i]);
        lemma_first_difference(keys, a, b, i + 1);
    }
}

/// The `k` most similar of the vectors whose similarities are given, most similar first: the
/// numbers of the vectors with their similarities.
pub fn brute_search(sims: &Vec<u32>, k: usize) -> (r: Vec<(u32, u32)>)
    requires
        sims@.len() <= u32::MAX,
    ensures
        exists|order: Seq<usize>| #[trigger]
            is_descending_order(sims@, order) && r@ == Seq::new(
                if k < order.len() {
                    k as nat
                } else {
                    order.len()
                },
                |i: int| (order[i] as u32, sims@[order[i] as int]),
            ),
{
    let order = descending_order(sims);
    let count: usize = if k < order.len() {
        k
    } else {
        order.len()
    };
    let mut r: Vec<(u32, u32)> = Vec::new();
    let mut i: usize = 0;
    while i < count
        invariant
            i <= count <= order@.len(),
            sims@.len() <= u32::MAX,
            is_descending_order(sims@, order@),
            r@.len() == i,
            forall|j: int|
                0 <= j < i ==> #[trigger] r@[j] == (
                    order@[j] as u32,
                    sims@[order@[j] as int],
                ),
        decreases count - i,
    {
        r.push((order[i] as u32, sims[order[i]]));
        i += 1;
    }
    proof {
        assert(r@ =~= Seq::new(
            if k < order@.len() {
                k as nat
            } else {
                order@.len()
            },
            |i: int| (order@[i] as u32, sims@[order@[i] as int]),
        ));
    }
    r
}

/// In the file of vectors the first four bytes are the dimension and the next four the number of
/// vectors, and each number of a vector takes four bytes behind them, vector by vector, the lowest
/// byte first.
pub proof fn law_store_holds_each_number_at_its_place(
    dim: u32,
    vectors: Seq<Vec<u32>>,
    i: int,
    j: int,
)
    requires
        all_of_dim(dim as int, vectors),
        vectors.len() <= u32::MAX,
        0 <= i < vectors.len(),
        0 <= j < dim,
    ensures
        ({
            let bytes = store_bytes(dim, vectors);
            let at = 8 + (i * dim + j) * 4;
            &&& bytes.subrange(0, 4) == spec_u32_to_le_bytes(dim)
            &&& bytes.subrange(4, 8) == spec_u32_to_le_bytes(vectors.len() as u32)
            &&& 8 <= at && at + 4 <= bytes.len()
            &&& bytes.subrange(at, at + 4) == spec_u32_to_le_bytes(vectors[i]@[j])
        }),
{
    lemma_auto_spec_u32_to_from_le_bytes();
    let bytes = store_bytes(dim, vectors);
    let n = vectors.len() as u32;
    let d = dim as int;
    let v = vectors[i]@;
    let own = vector_bytes(v);
    lemma_vectors_bytes(d, vectors, i);
    lemma_vector_bytes(v, j);
    assert(bytes.subrange(0, 4) =~= spec_u32_to_le_bytes(dim));
    assert(bytes.subrange(4, 8) =~= spec_u32_to_le_bytes(n));
    assert(8 + (i * d + j) * 4 == 8 + i * d * 4 + j * 4 && (i + 1) * d * 4 == i * d * 4 + d * 4) by (nonlinear_arith);
    assert(bytes.subrange(8 + i * d * 4, 8 + (i + 1) * d * 4) =~= vectors_bytes(vectors).subrange(
        i * d * 4,
        (i + 1) * d * 4,
    ));
    let at = 8 + (i * d + j) * 4;
    assert(bytes.subrange(at, at + 4) =~= own.subrange(j * 4, j * 4 + 4));
}

/// A search gives the places of the most similar vectors with their similarities, at most `k`, the
/// most similar first and equal ones by their places. No place is given twice, and one is only left
/// out for `k` that are no less similar.
pub proof fn law_search_finds_the_most_similar(
    sims: Seq<u32>,
    k: nat,
    order: Seq<usize>,
    r: Seq<(u32, u32)>,
)
    requires
        sims.len() <= u32::MAX,
        is_descending_order(sims, order),
        r == Seq::new(
            if k < order.len() {
                k
            } else {
                order.len()
            },
            |i: int| (order[i] as u32, sims[order[i] as int]),
        ),
    ensures
        r.len() == (if k < sims.len() {
            k
        } else {
            sims.len()
        }),
        forall|i: int|
            0 <= i < r.len() ==> (#[trigger] r[i]).0 < sims.len() && r[i].1 == sims[r[i].0 as int],
        forall|i: int, j: int|
            0 <= i < j < r.len() ==> f32_rank((#[trigger] r[i]).1) > f32_rank((#[trigger] r[j]).1)
                || f32_rank(r[i].1) == f32_rank(r[j].1) && r[i].0 < r[j].0,
        forall|p: int|
            0 <= p < sims.len() && (forall|i: int| 0 <= i < r.len() ==> (#[trigger] r[i]).0 != p)
                ==> forall|i: int|
                0 <= i < r.len() ==> f32_rank((#[trigger] r[i]).1) >= f32_rank(
                    #[trigger] sims[p],
                ),
{
    assert forall|i: int| 0 <= i < r.len() implies (#[trigger] r[i]).0 < sims.len() && r[i].1
        == sims[r[i].0 as int] by {
        assert(order[i] < sims.len());
    }
    assert forall|i: int, j: int| 0 <= i < j < r.len() implies f32_rank((#[trigger] r[i]).1)
        > f32_rank((#[trigger] r[j]).1) || f32_rank(r[i].1) == f32_rank(r[j].1) && r[i].0
        < r[j].0 by {
        assert(order[i] < sims.len() && order[j] < sims.len());
        assert(ranks_before(sims, order[i] as int, order[j] as int));
    }
    assert forall|p: int, i: int|
        0 <= p < sims.len() && (forall|m: int| 0 <= m < r.len() ==> (#[trigger] r[m]).0 != p) && 0
            <= i < r.len() implies f32_rank((#[trigger] r[i]).1) >= f32_rank(
        #[trigger] sims[p],
    ) by {
        lemma_all_placed(sims, order, p);
        let q = choose|q: int| 0 <= q < order.len() && #[trigger] order[q] == p;
        if q < r.len() {
            assert(r[q].0 == p);
        }
        assert(order[i] < sims.len());
        assert(ranks_before(sims, order[i] as int, order[q] as int));
    }
}

proof fn lemma_all_placed(keys: Seq<u32>, order: Seq<usize>, p: int)
    requires
        is_descending_order(keys, order),
        keys.len() <= u32::MAX,
        0 <= p < keys.len(),
    ensures
        exists|q: int| 0 <= q < order.len() && #[trigger] order[q] == p,
{
    assert(order.contains(p as usize));
    let q = order.index_of(p as usize);
    assert(order[q] == p);
}

} // verus!
