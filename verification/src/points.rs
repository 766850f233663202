use vstd::prelude::*;

verus! {

/// Number of coordinate axes that the index's ordering and distance logic
/// consider. Axis selection cycles through `0 .. DIM` by tree depth, and the
/// distance metric sums squared differences over exactly these axes.
pub const DIM: usize = 2;

/// A labeled vector. Coordinates are fixed-point values held as plain
/// integers; `distance` is unset on every document stored in an index and is
/// populated (with the squared Euclidean distance over the first `DIM` axes)
/// only on documents returned from a search.
#[derive(Clone, Debug)]
pub struct EmbeddedDocument {
    pub id: i32,
    pub embeddings: Vec<i32>,
    pub distance: Option<u128>,
}

/// Mathematical model of a document: the same data over unbounded integers.
#[verifier::ext_equal]
pub struct DocModel {
    pub id: int,
    pub embeddings: Seq<int>,
    pub distance: Option<int>,
}

/// The integer sequence a coordinate vector stands for.
pub open spec fn coords(s: Seq<i32>) -> Seq<int> {
    s.map(|i: int, c: i32| c as int)
}

impl View for EmbeddedDocument {
    type V = DocModel;

    open spec fn view(&self) -> DocModel {
        DocModel {
            id: self.id as int,
            embeddings: coords(self.embeddings@),
            distance: match self.distance {
                Some(d) => Some(d as int),
                None => None,
            },
        }
    }
}

/// The models of a sequence of documents.
pub open spec fn views_of(s: Seq<EmbeddedDocument>) -> Seq<DocModel> {
    s.map(|i: int, d: EmbeddedDocument| d@)
}

pub broadcast proof fn lemma_coords_index(s: Seq<i32>, i: int)
    requires
        0 <= i < s.len(),
    ensures
        #[trigger] coords(s)[i] == s[i] as int,
{
}

pub broadcast proof fn lemma_coords_len(s: Seq<i32>)
    ensures
        (#[trigger] coords(s)).len() == s.len(),
{
}

pub broadcast proof fn lemma_views_of_index(s: Seq<EmbeddedDocument>, i: int)
    requires
        0 <= i < s.len(),
    ensures
        #[trigger] views_of(s)[i] == s[i]@,
{
}

pub broadcast proof fn lemma_views_of_len(s: Seq<EmbeddedDocument>)
    ensures
        (#[trigger] views_of(s)).len() == s.len(),
{
}

/// A query against the index: an explicit coordinate vector.
#[derive(Clone, Debug)]
pub enum Query {
    Embeddings(Vec<i32>),
}

impl View for Query {
    type V = Seq<int>;

    open spec fn view(&self) -> Seq<int> {
        match self {
            Query::Embeddings(v) => coords(v@),
        }
    }
}

/// Failure values reported to the caller.
#[derive(Clone, Copy, Debug, PartialEq, Eq, Structural)]
pub enum SearchError {
    /// An encoded index is structurally invalid (its flat point order is not
    /// a valid spatial partition, or its documents are malformed).
    DeserializationError,
    /// A query or point set has an inconsistent coordinate-sequence length.
    DimensionMismatch,
    /// A coordinate sequence is shorter than the fixed dimensionality.
    InvalidInput,
}

impl SearchError {
    /// The description each failure carries.
    pub open spec fn message_spec(&self) -> Seq<char> {
        match self {
            SearchError::DeserializationError => "structurally invalid encoded index"@,
            SearchError::DimensionMismatch => "inconsistent coordinate-sequence length"@,
            SearchError::InvalidInput => "coordinate sequence shorter than the fixed dimensionality"@,
        }
    }

    /// A human-readable description of the failure.
    pub fn message(&self) -> (r: &'static str)
        ensures
            r@ == self.message_spec(),
    {
        match self {
            SearchError::DeserializationError => "structurally invalid encoded index",
            SearchError::DimensionMismatch => "inconsistent coordinate-sequence length",
            SearchError::InvalidInput => "coordinate sequence shorter than the fixed dimensionality",
        }
    }
}

/// The square of an integer.
pub open spec fn sq(x: int) -> int {
    x * x
}

/// Squared Euclidean distance over the first `DIM` axes only: the metric the
/// index orders results by. Coordinates beyond axis `DIM - 1` do not
/// participate.
pub open spec fn dist2(q: Seq<int>, e: Seq<int>) -> int {
    sq(q[0] - e[0]) + sq(q[1] - e[1])
}

/// The documents all share one coordinate-sequence length.
pub open spec fn consistent_dims(s: Seq<DocModel>) -> bool {
    forall|i: int, j: int|
        #![trigger s[i].embeddings, s[j].embeddings]
        0 <= i < s.len() && 0 <= j < s.len() ==> s[i].embeddings.len() == s[j].embeddings.len()
}

/// Well-formed stored documents: consistent lengths, at least `DIM` axes
/// each, and no distance value.
pub open spec fn docs_wf(s: Seq<DocModel>) -> bool {
    &&& consistent_dims(s)
    &&& forall|i: int| 0 <= i < s.len() ==> (#[trigger] s[i]).embeddings.len() >= DIM
    &&& forall|i: int| 0 <= i < s.len() ==> (#[trigger] s[i]).distance is None
}

pub proof fn lemma_sq_nonneg(x: int)
    ensures
        sq(x) >= 0,
{
    assert(x * x >= 0) by (nonlinear_arith);
}

pub proof fn lemma_sq_sym(x: int, y: int)
    ensures
        sq(x - y) == sq(y - x),
{
    assert((x - y) * (x - y) == (y - x) * (y - x)) by (nonlinear_arith);
}

pub proof fn lemma_sq_le(a: int, b: int)
    requires
        0 <= a <= b,
    ensures
        sq(a) <= sq(b),
{
    assert(a * a <= b * b) by (nonlinear_arith)
        requires
            0 <= a <= b,
    ;
}

/// The distance is bounded below by the squared difference along either
/// participating axis.
pub proof fn lemma_dist2_axis_lower(q: Seq<int>, e: Seq<int>, a: int)
    requires
        0 <= a < DIM,
    ensures
        dist2(q, e) >= sq(e[a] - q[a]),
{
    if a == 0 {
        lemma_sq_nonneg(q[1] - e[1]);
        lemma_sq_sym(q[0], e[0]);
    } else {
        lemma_sq_nonneg(q[0] - e[0]);
        lemma_sq_sym(q[1], e[1]);
    }
}

/// Exact squared Euclidean distance over the first `DIM` axes.
pub fn distance_squared(q: &Vec<i32>, e: &Vec<i32>) -> (r: u128)
    requires
        q@.len() >= DIM,
        e@.len() >= DIM,
    ensures
        r == dist2(coords(q@), coords(e@)),
{
    let d0: i64 = (q[0] as i64) - (e[0] as i64);
    let d1: i64 = (q[1] as i64) - (e[1] as i64);
    proof {
        assert(-0x1_0000_0000 <= d0 <= 0x1_0000_0000);
        assert(-0x1_0000_0000 <= d1 <= 0x1_0000_0000);
        assert(0 <= d0 * d0 <= 0x1_0000_0000_0000_0000) by (nonlinear_arith)
            requires
                -0x1_0000_0000 <= d0 <= 0x1_0000_0000,
        ;
        assert(0 <= d1 * d1 <= 0x1_0000_0000_0000_0000) by (nonlinear_arith)
            requires
                -0x1_0000_0000 <= d1 <= 0x1_0000_0000,
        ;
    }
    let p0: i128 = (d0 as i128) * (d0 as i128);
    let p1: i128 = (d1 as i128) * (d1 as i128);
    let s: i128 = p0 + p1;
    proof {
        assert(coords(q@)[0] == q@[0] as int);
        assert(coords(q@)[1] == q@[1] as int);
        assert(coords(e@)[0] == e@[0] as int);
        assert(coords(e@)[1] == e@[1] as int);
    }
    s as u128
}

} // verus!
