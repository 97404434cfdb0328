//! The parsed matrix, its symmetry tag and the parse errors.
use vstd::prelude::*;

verus! {

/// Relies on nothing of `std::io::Error` but its existence: a read failure is
/// carried to the caller unopened.
#[verifier::external_type_specification]
#[verifier::external_body]
pub struct ExIoError(std::io::Error);

/// Everything that can go wrong while reading a matrix.
#[derive(Debug)]
pub enum MtxError {
    /// Reading the underlying source failed.
    IoError(std::io::Error),
    /// The lines ended before a needed line.
    EarlyEOF,
    /// The banner has fewer than five words.
    EarlyBannerEnd,
    /// An entry line has fewer words than its coordinates and value.
    EarlyLineEnd,
    /// The size line misses a dimension, has a zero one, or misses the entry
    /// count of a sparse matrix.
    EarlySizesHeaderEnd,
    /// The banner's symmetry word is neither `general` nor `symmetric`.
    UnsupportedSym(String),
    /// Kept for number fields that may be read later; never produced.
    UnsupportedNumType(String),
    /// Kept for layouts that may be read later; never produced.
    UnsupportedLayout(String),
    /// A value did not read as a number of the chosen type (the word, or for
    /// a dense body the whole line).
    InvalidNum(String),
    /// A size word or a coordinate word is not an unsigned integer, or a
    /// coordinate is `0`.
    InvalidCoordinate(String),
}

/// `MtxError` with its texts seen as character sequences.
pub enum MtxErrorView {
    IoError,
    EarlyEOF,
    EarlyBannerEnd,
    EarlyLineEnd,
    EarlySizesHeaderEnd,
    UnsupportedSym(Seq<char>),
    UnsupportedNumType(Seq<char>),
    UnsupportedLayout(Seq<char>),
    InvalidNum(Seq<char>),
    InvalidCoordinate(Seq<char>),
}

impl View for MtxError {
    type V = MtxErrorView;

    open spec fn view(&self) -> MtxErrorView {
        match self {
            MtxError::IoError(_) => MtxErrorView::IoError,
            MtxError::EarlyEOF => MtxErrorView::EarlyEOF,
            MtxError::EarlyBannerEnd => MtxErrorView::EarlyBannerEnd,
            MtxError::EarlyLineEnd => MtxErrorView::EarlyLineEnd,
            MtxError::EarlySizesHeaderEnd => MtxErrorView::EarlySizesHeaderEnd,
            MtxError::UnsupportedSym(s) => MtxErrorView::UnsupportedSym(s@),
            MtxError::UnsupportedNumType(s) => MtxErrorView::UnsupportedNumType(s@),
            MtxError::UnsupportedLayout(s) => MtxErrorView::UnsupportedLayout(s@),
            MtxError::InvalidNum(s) => MtxErrorView::InvalidNum(s@),
            MtxError::InvalidCoordinate(s) => MtxErrorView::InvalidCoordinate(s@),
        }
    }
}

impl MtxError {
    /// A one-line description: read failures apart from malformed text.
    pub fn message(&self) -> (r: &'static str)
        ensures
            r@ == (if self is IoError {
                "IO error occurs when manipulate mtx file"@
            } else {
                "Invalid mtx text format"@
            }),
    {
        match self {
            MtxError::IoError(_) => "IO error occurs when manipulate mtx file",
            _ => "Invalid mtx text format",
        }
    }

    /// The lower-level error that caused this one, if any.
    pub fn source(&self) -> (r: Option<&std::io::Error>)
        ensures
            r is Some <==> self is IoError,
            self is IoError ==> r == Some(&self->IoError_0),
    {
        match self {
            MtxError::IoError(e) => Some(e),
            _ => None,
        }
    }
}

/// The symmetry tag of a matrix: whether only one triangle is stored.
#[derive(Debug, Clone, Copy, PartialEq, Eq, Structural)]
pub enum SymInfo {
    General,
    Symmetric,
}

/// A matrix read from Matrix Market text.
///
/// `Dense` holds the dimensions and the values in column-major order;
/// `Sparse` holds the dimensions, the 0-based coordinates of the stored
/// entries and their values. Both carry the symmetry tag.
#[derive(Clone, Debug, PartialEq, Eq)]
pub enum MtxData<T, const NDIM: usize> {
    Dense([usize; NDIM], Vec<T>, SymInfo),
    Sparse([usize; NDIM], Vec<[usize; NDIM]>, Vec<T>, SymInfo),
}

/// `MtxData` with its arrays and vectors seen as sequences.
pub enum MtxDataView<T> {
    Dense { dims: Seq<usize>, values: Seq<T>, sym: SymInfo },
    Sparse { dims: Seq<usize>, coords: Seq<Seq<usize>>, values: Seq<T>, sym: SymInfo },
}

/// The coordinates of a list of entries, as sequences.
pub open spec fn coords_view<const NDIM: usize>(v: Seq<[usize; NDIM]>) -> Seq<Seq<usize>> {
    v.map_values(|c: [usize; NDIM]| c@)
}

impl<T, const NDIM: usize> View for MtxData<T, NDIM> {
    type V = MtxDataView<T>;

    open spec fn view(&self) -> MtxDataView<T> {
        match self {
            MtxData::Dense(d, v, s) => MtxDataView::Dense { dims: d@, values: v@, sym: *s },
            MtxData::Sparse(d, c, v, s) => MtxDataView::Sparse {
                dims: d@,
                coords: coords_view(c@),
                values: v@,
                sym: *s,
            },
        }
    }
}

} // verus!
