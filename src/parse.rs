//! The reading pipeline: banner, comments, size line, then the body.
use crate::matrix::{MtxData, MtxDataView, MtxError, MtxErrorView, SymInfo, coords_view};
use crate::scalar::Scalar;
use crate::text::{
    first_visible, first_visible_char, has_prefix, parse_usize, same_chars, split_words, starts_with_chars, trim_end,
    trim_end_str, usize_of, views_of, words,
};
use vstd::prelude::*;

verus! {

/// The text that opens a banner line.
pub open spec fn banner_tag() -> Seq<char> {
    "%%MatrixMarket"@
}

/// A banner line: `%%MatrixMarket object layout field symmetry`.
pub open spec fn is_banner(l: Seq<char>) -> bool {
    has_prefix(l, banner_tag())
}

/// A comment line: its first visible character is `%`.
pub open spec fn is_comment(l: Seq<char>) -> bool {
    first_visible(l) == Some('%')
}

/// A line of whitespace only.
pub open spec fn is_blank(l: Seq<char>) -> bool {
    first_visible(l) is None
}

/// A line skipped while looking for the first record: blank, or a comment
/// that is not a banner.
pub open spec fn is_filler(l: Seq<char>) -> bool {
    is_blank(l) || (is_comment(l) && !is_banner(l))
}

/// The index of the first line at or after `i` that is not filler
/// (`ls.len()` if there is none).
pub open spec fn first_record(ls: Seq<Seq<char>>, i: int) -> int
    decreases ls.len() - i,
{
    if i >= ls.len() {
        ls.len() as int
    } else if is_filler(ls[i]) {
        first_record(ls, i + 1)
    } else {
        i
    }
}

/// The index of the first line at or after `i` that is neither a comment nor
/// blank (`ls.len()` if there is none).
pub open spec fn past_comments(ls: Seq<Seq<char>>, i: int) -> int
    decreases ls.len() - i,
{
    if i >= ls.len() {
        ls.len() as int
    } else if is_comment(ls[i]) || is_blank(ls[i]) {
        past_comments(ls, i + 1)
    } else {
        i
    }
}

/// What a symmetry token means; trailing whitespace is ignored.
pub open spec fn sym_of(s: Seq<char>) -> Result<SymInfo, MtxErrorView> {
    let t = trim_end(s);
    if t == "general"@ {
        Ok(SymInfo::General)
    } else if t == "symmetric"@ {
        Ok(SymInfo::Symmetric)
    } else {
        Err(MtxErrorView::UnsupportedSym(t))
    }
}

/// What a banner line declares: whether the layout is `coordinate` (sparse),
/// and the symmetry. The first two words and the field word are not read.
pub open spec fn banner_of(l: Seq<char>) -> Result<(bool, SymInfo), MtxErrorView> {
    let w = words(l);
    if w.len() < 5 {
        Err(MtxErrorView::EarlyBannerEnd)
    } else {
        match sym_of(w[4]) {
            Err(e) => Err(e),
            Ok(sym) => Ok((w[2] == "coordinate"@, sym)),
        }
    }
}

/// The views of a list of lines.
pub open spec fn lines_view(v: Seq<String>) -> Seq<Seq<char>> {
    v.map_values(|l: String| l@)
}

/// The view of a parse error, or of the value parsed.
pub open spec fn err_view<A>(r: Result<A, MtxError>) -> Result<A, MtxErrorView> {
    match r {
        Ok(a) => Ok(a),
        Err(e) => Err(e@),
    }
}

impl SymInfo {
    /// Reads a symmetry token: `general` or `symmetric`, trailing whitespace
    /// ignored; anything else is unsupported.
    pub fn parse_tag(s: &str) -> (r: Result<SymInfo, MtxError>)
        ensures
            err_view(r) == sym_of(s@),
    {
        let t = trim_end_str(s);
        if same_chars(t, "general") {
            Ok(SymInfo::General)
        } else if same_chars(t, "symmetric") {
            Ok(SymInfo::Symmetric)
        } else {
            Err(MtxError::UnsupportedSym(t.to_owned()))
        }
    }
}

impl std::str::FromStr for SymInfo {
    type Err = MtxError;

    fn from_str(s: &str) -> Result<SymInfo, MtxError> {
        SymInfo::parse_tag(s)
    }
}

/// Reads a banner line.
pub fn parse_banner(line: &str) -> (r: Result<(bool, SymInfo), MtxError>)
    ensures
        err_view(r) == banner_of(line@),
{
    let w = split_words(line);
    proof {
        assert(views_of(w@).len() == w@.len());
    }
    if w.len() < 5 {
        return Err(MtxError::EarlyBannerEnd);
    }
    assert(views_of(w@)[2] == w@[2]@ && views_of(w@)[4] == w@[4]@);
    let sym = match SymInfo::parse_tag(w[4]) {
        Ok(s) => s,
        Err(e) => {
            return Err(e);
        },
    };
    Ok((same_chars(w[2], "coordinate"), sym))
}

/// Whether a line is a comment or blank.
pub fn is_comment_or_blank(line: &str) -> (r: bool)
    ensures
        r == (is_comment(line@) || is_blank(line@)),
{
    match first_visible_char(line) {
        None => true,
        Some(c) => c == '%',
    }
}

/// Skips the comment and blank lines from `i` on; returns the index of the first other
/// line, or `lines.len()`.
pub fn skip_comments(lines: &Vec<String>, i: usize) -> (r: usize)
    requires
        i <= lines@.len(),
    ensures
        r as int == past_comments(lines_view(lines@), i as int),
{
    let ghost ls = lines_view(lines@);
    let mut k = i;
    while k < lines.len()
        invariant
            i <= k <= lines@.len(),
            ls == lines_view(lines@),
            past_comments(ls, i as int) == past_comments(ls, k as int),
        decreases lines@.len() - k,
    {
        assert(ls[k as int] == lines@[k as int]@);
        if !is_comment_or_blank(lines[k].as_str()) {
            return k;
        }
        k = k + 1;
    }
    k
}

/// Skips blank lines and comment lines that are not banners, from the top;
/// returns the index of the first record, or `lines.len()`.
pub fn skip_to_record(lines: &Vec<String>) -> (r: usize)
    ensures
        r as int == first_record(lines_view(lines@), 0),
{
    let ghost ls = lines_view(lines@);
    let mut k: usize = 0;
    while k < lines.len()
        invariant
            k <= lines@.len(),
            ls == lines_view(lines@),
            first_record(ls, 0) == first_record(ls, k as int),
        decreases lines@.len() - k,
    {
        let line = lines[k].as_str();
        assert(ls[k as int] == line@);
        let c = first_visible_char(line);
        let filler = match c {
            None => true,
            Some(ch) => ch == '%' && !starts_with_chars(line, "%%MatrixMarket"),
        };
        if !filler {
            return k;
        }
        k = k + 1;
    }
    k
}

/// The first `j` in `[i, k)` whose word is not an unsigned integer, or `k`.
pub open spec fn first_bad_size_word(w: Seq<Seq<char>>, i: int, k: int) -> int
    decreases k - i,
{
    if i >= k {
        k
    } else if usize_of(w[i]) is None {
        i
    } else {
        first_bad_size_word(w, i + 1, k)
    }
}

/// How many leading words of a line are read when `n` numbers are expected
/// before a last one.
pub open spec fn read_count(w: Seq<Seq<char>>, n: nat) -> int {
    if w.len() < n + 1 {
        w.len() as int
    } else {
        (n + 1) as int
    }
}

/// What a size line declares, for `n` dimensions: the dimensions and, when a
/// further word is there, the number of stored entries. Every word read must
/// be an unsigned integer; every dimension must be there and positive.
pub open spec fn sizes_of(l: Seq<char>, n: nat) -> Result<(Seq<usize>, Option<usize>), MtxErrorView> {
    let w = words(l);
    let k = read_count(w, n);
    let b = first_bad_size_word(w, 0, k);
    if b < k {
        Err(MtxErrorView::InvalidCoordinate(w[b]))
    } else {
        let dims = Seq::new(
            n,
            |j: int|
                if j < w.len() {
                    usize_of(w[j])->0
                } else {
                    0usize
                },
        );
        if exists|j: int| 0 <= j < n && dims[j] == 0 {
            Err(MtxErrorView::EarlySizesHeaderEnd)
        } else {
            Ok(
                (
                    dims,
                    if w.len() > n {
                        Some(usize_of(w[n as int])->0)
                    } else {
                        None
                    },
                ),
            )
        }
    }
}

/// A 1-based coordinate token, made 0-based; `0` is no coordinate.
pub open spec fn coord_of(t: Seq<char>) -> Option<usize> {
    match usize_of(t) {
        Some(v) => if v >= 1 {
            Some((v - 1) as usize)
        } else {
            None
        },
        None => None,
    }
}

/// Whether word `j` of an entry line with `n` coordinates reads correctly.
pub open spec fn entry_word_ok<T: Scalar>(w: Seq<Seq<char>>, n: nat, j: int) -> bool {
    if j < n {
        coord_of(w[j]) is Some
    } else {
        T::spec_from_dec(w[j]) is Some
    }
}

/// The first `j` in `[i, k)` whose word of an entry line does not read, or `k`.
pub open spec fn first_bad_entry_word<T: Scalar>(w: Seq<Seq<char>>, n: nat, i: int, k: int) -> int
    decreases k - i,
{
    if i >= k {
        k
    } else if !entry_word_ok::<T>(w, n, i) {
        i
    } else {
        first_bad_entry_word::<T>(w, n, i + 1, k)
    }
}

/// What an entry line of a sparse body holds: `n` 1-based coordinates, made
/// 0-based, and a value. Words after the value are not read.
pub open spec fn entry_of<T: Scalar>(l: Seq<char>, n: nat) -> Result<(Seq<usize>, T), MtxErrorView> {
    let w = words(l);
    let k = read_count(w, n);
    let b = first_bad_entry_word::<T>(w, n, 0, k);
    if b < k {
        if b < n {
            Err(MtxErrorView::InvalidCoordinate(w[b]))
        } else {
            Err(MtxErrorView::InvalidNum(w[b]))
        }
    } else if w.len() <= n {
        Err(MtxErrorView::EarlyLineEnd)
    } else {
        Ok((Seq::new(n, |j: int| coord_of(w[j])->0), T::spec_from_dec(w[n as int])->0))
    }
}

/// Reads a size line for `NDIM` dimensions.
pub fn parse_sizes<const NDIM: usize>(line: &str) -> (r: Result<([usize; NDIM], Option<usize>), MtxError>)
    ensures
        match (r, sizes_of(line@, NDIM as nat)) {
            (Ok((d, z)), Ok((sd, sz))) => d@ == sd && z == sz,
            (Err(e), Err(se)) => e@ == se,
            _ => false,
        },
{
    let w = split_words(line);
    let ghost ws = words(line@);
    assert(views_of(w@).len() == w@.len());
    let k: usize = if w.len() <= NDIM {
        w.len()
    } else {
        NDIM + 1
    };
    let mut dims = [0usize; NDIM];
    let mut nnz: Option<usize> = None;
    let mut j: usize = 0;
    while j < k
        invariant
            ws == views_of(w@),
            ws == words(line@),
            ws.len() == w@.len(),
            k == read_count(ws, NDIM as nat),
            j <= k,
            dims@.len() == NDIM,
            first_bad_size_word(ws, 0, k as int) == first_bad_size_word(ws, j as int, k as int),
            forall|t: int| 0 <= t < j ==> usize_of(#[trigger] ws[t]) is Some,
            forall|t: int| 0 <= t < NDIM ==> #[trigger] dims@[t] == (if t < j {
                usize_of(ws[t])->0
            } else {
                0usize
            }),
            nnz == (if j > NDIM {
                Some(usize_of(ws[NDIM as int])->0)
            } else {
                None
            }),
        decreases k - j,
    {
        assert(ws[j as int] == w@[j as int]@);
        match parse_usize(w[j]) {
            None => {
                assert(first_bad_size_word(ws, j as int, k as int) == j);
                assert(first_bad_size_word(ws, 0, k as int) == j);
                return Err(MtxError::InvalidCoordinate(w[j].to_owned()));
            },
            Some(v) => {
                if j < NDIM {
                    dims[j] = v;
                } else {
                    nnz = Some(v);
                }
            },
        }
        j = j + 1;
    }
    let ghost sd = Seq::new(
        NDIM as nat,
        |t: int|
            if t < ws.len() {
                usize_of(ws[t])->0
            } else {
                0usize
            },
    );
    assert(dims@ =~= sd);
    assert(first_bad_size_word(ws, k as int, k as int) == k);
    assert(sizes_of(line@, NDIM as nat) == (if exists|u: int| 0 <= u < NDIM && sd[u] == 0 {
        Err(MtxErrorView::EarlySizesHeaderEnd)
    } else {
        Ok((sd, nnz))
    }));
    let mut t: usize = 0;
    while t < NDIM
        invariant
            t <= NDIM,
            dims@ == sd,
            sizes_of(line@, NDIM as nat) == (if exists|u: int| 0 <= u < NDIM && sd[u] == 0 {
                Err(MtxErrorView::EarlySizesHeaderEnd)
            } else {
                Ok((sd, nnz))
            }),
            forall|u: int| 0 <= u < t ==> sd[u] != 0,
        decreases NDIM - t,
    {
        if dims[t] == 0 {
            assert(sd[t as int] == 0);
            return Err(MtxError::EarlySizesHeaderEnd);
        }
        t = t + 1;
    }
    Ok((dims, nnz))
}

/// Reads one entry line of a sparse body: `NDIM` 1-based coordinates, made
/// 0-based, then a value.
pub fn parse_coords_val<T: Scalar, const NDIM: usize>(line: &str) -> (r: Result<([usize; NDIM], T), MtxError>)
    ensures
        match (r, entry_of::<T>(line@, NDIM as nat)) {
            (Ok((c, v)), Ok((sc, sv))) => c@ == sc && v == sv,
            (Err(e), Err(se)) => e@ == se,
            _ => false,
        },
{
    let w = split_words(line);
    let ghost ws = words(line@);
    assert(views_of(w@).len() == w@.len());
    let k: usize = if w.len() <= NDIM {
        w.len()
    } else {
        NDIM + 1
    };
    let mut coords = [0usize; NDIM];
    let mut value: Option<T> = None;
    let mut j: usize = 0;
    while j < k
        invariant
            ws == views_of(w@),
            ws == words(line@),
            ws.len() == w@.len(),
            k == read_count(ws, NDIM as nat),
            j <= k,
            coords@.len() == NDIM,
            first_bad_entry_word::<T>(ws, NDIM as nat, 0, k as int)
                == first_bad_entry_word::<T>(ws, NDIM as nat, j as int, k as int),
            forall|t: int| 0 <= t < NDIM && t < j ==> #[trigger] coords@[t] == coord_of(ws[t])->0,
            j > NDIM ==> T::spec_from_dec(ws[NDIM as int]) is Some,
            value == (if j > NDIM {
                T::spec_from_dec(ws[NDIM as int])
            } else {
                None
            }),
        decreases k - j,
    {
        assert(ws[j as int] == w@[j as int]@);
        if j < NDIM {
            match parse_usize(w[j]) {
                Some(v) if v >= 1 => {
                    coords[j] = v - 1;
                },
                _ => {
                    assert(first_bad_entry_word::<T>(ws, NDIM as nat, j as int, k as int) == j);
                    return Err(MtxError::InvalidCoordinate(w[j].to_owned()));
                },
            }
        } else {
            match T::from_dec(w[j]) {
                Some(v) => {
                    value = Some(v);
                },
                None => {
                    assert(first_bad_entry_word::<T>(ws, NDIM as nat, j as int, k as int) == j);
                    return Err(MtxError::InvalidNum(w[j].to_owned()));
                },
            }
        }
        j = j + 1;
    }
    assert(first_bad_entry_word::<T>(ws, NDIM as nat, k as int, k as int) == k);
    match value {
        Some(v) => {
            assert(coords@ =~= Seq::new(NDIM as nat, |t: int| coord_of(ws[t])->0));
            assert(entry_of::<T>(line@, NDIM as nat) == Ok::<(Seq<usize>, T), MtxErrorView>((coords@, v)));
            Ok((coords, v))
        },
        None => {
            assert(entry_of::<T>(line@, NDIM as nat) == Err::<(Seq<usize>, T), MtxErrorView>(MtxErrorView::EarlyLineEnd));
            Err(MtxError::EarlyLineEnd)
        },
    }
}

/// The product of the dimensions: how many values a dense body holds.
pub open spec fn product(d: Seq<usize>) -> nat
    decreases d.len(),
{
    if d.len() == 0 {
        1
    } else {
        product(d.drop_last()) * (d.last() as nat)
    }
}

/// What a sparse body of `nnz` entry lines from line `start` holds, for `n`
/// coordinates: the coordinates and the values, in file order, or the first
/// error met. Lines after the last entry are not read.
pub open spec fn sparse_body<T: Scalar>(ls: Seq<Seq<char>>, start: int, nnz: nat, n: nat) -> Result<
    (Seq<Seq<usize>>, Seq<T>),
    MtxErrorView,
>
    decreases nnz,
{
    if nnz == 0 {
        Ok((seq![], seq![]))
    } else {
        match sparse_body::<T>(ls, start, (nnz - 1) as nat, n) {
            Err(e) => Err(e),
            Ok((c, v)) => {
                let i = start + nnz - 1;
                if i >= ls.len() {
                    Err(MtxErrorView::EarlyEOF)
                } else {
                    match entry_of::<T>(ls[i], n) {
                        Err(e) => Err(e),
                        Ok((cc, vv)) => Ok((c.push(cc), v.push(vv))),
                    }
                }
            },
        }
    }
}

/// What a dense body of `count` value lines from line `start` holds, in file
/// order, or the first error met. A value line is read whole, trailing
/// whitespace ignored.
pub open spec fn dense_body<T: Scalar>(ls: Seq<Seq<char>>, start: int, count: nat) -> Result<Seq<T>, MtxErrorView>
    decreases count,
{
    if count == 0 {
        Ok(seq![])
    } else {
        match dense_body::<T>(ls, start, (count - 1) as nat) {
            Err(e) => Err(e),
            Ok(v) => {
                let i = start + count - 1;
                if i >= ls.len() {
                    Err(MtxErrorView::EarlyEOF)
                } else {
                    match T::spec_from_dec(trim_end(ls[i])) {
                        None => Err(MtxErrorView::InvalidNum(ls[i])),
                        Some(x) => Ok(v.push(x)),
                    }
                }
            },
        }
    }
}

/// Once a sparse body has failed, reading more entries keeps the error.
proof fn lemma_sparse_error_stays<T: Scalar>(ls: Seq<Seq<char>>, start: int, j: nat, k: nat, n: nat)
    requires
        j <= k,
        sparse_body::<T>(ls, start, j, n) is Err,
    ensures
        sparse_body::<T>(ls, start, k, n) == sparse_body::<T>(ls, start, j, n),
    decreases k - j,
{
    if j < k {
        lemma_sparse_error_stays::<T>(ls, start, j, (k - 1) as nat, n);
    }
}

/// Once a dense body has failed, reading more values keeps the error.
proof fn lemma_dense_error_stays<T: Scalar>(ls: Seq<Seq<char>>, start: int, j: nat, k: nat)
    requires
        j <= k,
        dense_body::<T>(ls, start, j) is Err,
    ensures
        dense_body::<T>(ls, start, k) == dense_body::<T>(ls, start, j),
    decreases k - j,
{
    if j < k {
        lemma_dense_error_stays::<T>(ls, start, j, (k - 1) as nat);
    }
}

/// Reads `nnz` entry lines from line `start` on.
pub fn parse_sparse_coo<T: Scalar, const NDIM: usize>(lines: &Vec<String>, start: usize, nnz: usize) -> (r: Result<
    (Vec<[usize; NDIM]>, Vec<T>),
    MtxError,
>)
    requires
        start <= lines@.len(),
    ensures
        match (r, sparse_body::<T>(lines_view(lines@), start as int, nnz as nat, NDIM as nat)) {
            (Ok((c, v)), Ok((sc, sv))) => coords_view(c@) == sc && v@ == sv,
            (Err(e), Err(se)) => e@ == se,
            _ => false,
        },
{
    let ghost ls = lines_view(lines@);
    let mut indices: Vec<[usize; NDIM]> = Vec::new();
    let mut values: Vec<T> = Vec::new();
    let mut k: usize = 0;
    assert(coords_view(indices@) =~= seq![]);
    assert(values@ =~= seq![]);
    while k < nnz
        invariant
            start <= lines@.len(),
            ls == lines_view(lines@),
            k <= nnz,
            sparse_body::<T>(ls, start as int, k as nat, NDIM as nat) == Ok::<
                (Seq<Seq<usize>>, Seq<T>),
                MtxErrorView,
            >((coords_view(indices@), values@)),
        decreases nnz - k,
    {
        if k >= lines.len() - start {
            proof {
                lemma_sparse_error_stays::<T>(ls, start as int, (k + 1) as nat, nnz as nat, NDIM as nat);
            }
            return Err(MtxError::EarlyEOF);
        }
        let i = start + k;
        assert(ls[i as int] == lines@[i as int]@);
        match parse_coords_val::<T, NDIM>(lines[i].as_str()) {
            Err(e) => {
                proof {
                    lemma_sparse_error_stays::<T>(ls, start as int, (k + 1) as nat, nnz as nat, NDIM as nat);
                }
                return Err(e);
            },
            Ok((c, v)) => {
                proof {
                    assert(coords_view(indices@.push(c)) =~= coords_view(indices@).push(c@));
                }
                indices.push(c);
                values.push(v);
            },
        }
        k = k + 1;
    }
    Ok((indices, values))
}

/// Reads `count` value lines from line `start` on.
pub fn parse_dense_vec<T: Scalar>(lines: &Vec<String>, start: usize, count: usize) -> (r: Result<Vec<T>, MtxError>)
    requires
        start <= lines@.len(),
    ensures
        match (r, dense_body::<T>(lines_view(lines@), start as int, count as nat)) {
            (Ok(v), Ok(sv)) => v@ == sv,
            (Err(e), Err(se)) => e@ == se,
            _ => false,
        },
{
    let ghost ls = lines_view(lines@);
    let mut values: Vec<T> = Vec::new();
    let mut k: usize = 0;
    assert(values@ =~= seq![]);
    while k < count
        invariant
            start <= lines@.len(),
            ls == lines_view(lines@),
            k <= count,
            dense_body::<T>(ls, start as int, k as nat) == Ok::<Seq<T>, MtxErrorView>(values@),
        decreases count - k,
    {
        if k >= lines.len() - start {
            proof {
                lemma_dense_error_stays::<T>(ls, start as int, (k + 1) as nat, count as nat);
            }
            return Err(MtxError::EarlyEOF);
        }
        let i = start + k;
        let line = lines[i].as_str();
        assert(ls[i as int] == line@);
        match T::from_dec(trim_end_str(line)) {
            None => {
                proof {
                    lemma_dense_error_stays::<T>(ls, start as int, (k + 1) as nat, count as nat);
                }
                return Err(MtxError::InvalidNum(lines[i].clone()));
            },
            Some(x) => {
                values.push(x);
            },
        }
        k = k + 1;
    }
    Ok(values)
}

/// The product of the leading dimensions grows as more are taken in.
proof fn lemma_product_grows(d: Seq<usize>, j: int, k: int)
    requires
        0 <= j <= k <= d.len(),
        forall|i: int| 0 <= i < d.len() ==> d[i] > 0,
    ensures
        product(d.take(j)) <= product(d.take(k)),
    decreases k - j,
{
    if j < k {
        lemma_product_grows(d, j, k - 1);
        assert(d.take(k).drop_last() =~= d.take(k - 1));
        let p = product(d.take(k - 1));
        let x = d[k - 1] as nat;
        assert(p * x >= p) by (nonlinear_arith)
            requires
                x >= 1,
        ;
    }
}

/// The product of positive dimensions, or `None` where it exceeds `usize`.
pub fn dims_product<const NDIM: usize>(dims: &[usize; NDIM]) -> (r: Option<usize>)
    requires
        forall|i: int| 0 <= i < NDIM ==> dims@[i] > 0,
    ensures
        match r {
            Some(p) => p as nat == product(dims@),
            None => product(dims@) > usize::MAX,
        },
{
    let mut acc: usize = 1;
    let mut j: usize = 0;
    assert(dims@.take(0) =~= seq![]);
    while j < NDIM
        invariant
            j <= NDIM,
            dims@.len() == NDIM,
            forall|i: int| 0 <= i < NDIM ==> dims@[i] > 0,
            acc as nat == product(dims@.take(j as int)),
        decreases NDIM - j,
    {
        assert(dims@.take(j + 1).drop_last() =~= dims@.take(j as int));
        match acc.checked_mul(dims[j]) {
            None => {
                proof {
                    lemma_product_grows(dims@, j + 1, NDIM as int);
                    assert(dims@.take(NDIM as int) =~= dims@);
                }
                return None;
            },
            Some(p) => {
                acc = p;
            },
        }
        j = j + 1;
    }
    assert(dims@.take(NDIM as int) =~= dims@);
    Some(acc)
}

/// A dense body that runs past the last line ends in its first error, or in
/// `EarlyEOF`, however many values it asked for.
proof fn lemma_dense_past_end<T: Scalar>(ls: Seq<Seq<char>>, start: int, count: nat)
    requires
        0 <= start <= ls.len(),
        start + count > ls.len(),
    ensures
        dense_body::<T>(ls, start, count) == (match dense_body::<T>(
            ls,
            start,
            (ls.len() - start) as nat,
        ) {
            Err(e) => Err::<Seq<T>, MtxErrorView>(e),
            Ok(_) => Err(MtxErrorView::EarlyEOF),
        }),
    decreases count,
{
    if start + count - 1 > ls.len() {
        lemma_dense_past_end::<T>(ls, start, (count - 1) as nat);
    }
}

/// What follows the size line at `h`, given the layout and the symmetry.
pub open spec fn body_of<T: Scalar>(ls: Seq<Seq<char>>, h: int, sparse: bool, sym: SymInfo, n: nat) -> Result<
    MtxDataView<T>,
    MtxErrorView,
> {
    match sizes_of(ls[h], n) {
        Err(e) => Err(e),
        Ok((dims, nnz)) => if sparse {
            match nnz {
                None => Err(MtxErrorView::EarlySizesHeaderEnd),
                Some(k) => match sparse_body::<T>(ls, h + 1, k as nat, n) {
                    Err(e) => Err(e),
                    Ok((c, v)) => Ok(MtxDataView::Sparse { dims, coords: c, values: v, sym }),
                },
            }
        } else {
            match dense_body::<T>(ls, h + 1, product(dims)) {
                Err(e) => Err(e),
                Ok(v) => Ok(MtxDataView::Dense { dims, values: v, sym }),
            }
        },
    }
}

/// What the lines of a Matrix Market file hold, for `n` dimensions.
///
/// Blank lines and comments before the first record are skipped. When that
/// record is a banner, it gives the layout and the symmetry, and the size line
/// is the next line that is not a comment. Otherwise the record is the size
/// line itself: the matrix is general, and sparse exactly when the line has a
/// word beyond the dimensions.
pub open spec fn parse_lines<T: Scalar>(ls: Seq<Seq<char>>, n: nat) -> Result<MtxDataView<T>, MtxErrorView> {
    let b = first_record(ls, 0);
    if b >= ls.len() {
        Err(MtxErrorView::EarlyEOF)
    } else if is_banner(ls[b]) {
        match banner_of(ls[b]) {
            Err(e) => Err(e),
            Ok((sparse, sym)) => {
                let h = past_comments(ls, b + 1);
                if h >= ls.len() {
                    Err(MtxErrorView::EarlyEOF)
                } else {
                    body_of::<T>(ls, h, sparse, sym, n)
                }
            },
        }
    } else {
        body_of::<T>(ls, b, words(ls[b]).len() > n, SymInfo::General, n)
    }
}

/// Whether an outcome of reading matches the outcome that the model gives.
pub open spec fn outcome_matches<T, const NDIM: usize>(
    r: Result<MtxData<T, NDIM>, MtxError>,
    m: Result<MtxDataView<T>, MtxErrorView>,
) -> bool {
    match (r, m) {
        (Ok(d), Ok(sd)) => d@ == sd,
        (Err(e), Err(se)) => e@ == se,
        _ => false,
    }
}

impl<T: Scalar, const NDIM: usize> MtxData<T, NDIM> {
    /// Reads a matrix from the lines of a Matrix Market file.
    pub fn from_lines(lines: &Vec<String>) -> (r: Result<Self, MtxError>)
        ensures
            outcome_matches(r, parse_lines::<T>(lines_view(lines@), NDIM as nat)),
    {
        let ghost ls = lines_view(lines@);
        let b = skip_to_record(lines);
        if b >= lines.len() {
            return Err(MtxError::EarlyEOF);
        }
        let first = lines[b].as_str();
        assert(ls[b as int] == first@);
        let (h, is_sparse, sym) = if starts_with_chars(first, "%%MatrixMarket") {
            let (sp, sy) = match parse_banner(first) {
                Ok(x) => x,
                Err(e) => {
                    return Err(e);
                },
            };
            let h = skip_comments(lines, b + 1);
            if h >= lines.len() {
                return Err(MtxError::EarlyEOF);
            }
            (h, sp, sy)
        } else {
            let w = split_words(first);
            assert(views_of(w@).len() == w@.len());
            (b, w.len() > NDIM, SymInfo::General)
        };
        let ghost model = body_of::<T>(ls, h as int, is_sparse, sym, NDIM as nat);
        assert(parse_lines::<T>(ls, NDIM as nat) == model);
        let line = lines[h].as_str();
        assert(ls[h as int] == line@);
        let (dims, nnz) = match parse_sizes::<NDIM>(line) {
            Ok(x) => x,
            Err(e) => {
                return Err(e);
            },
        };
        if is_sparse {
            match nnz {
                None => Err(MtxError::EarlySizesHeaderEnd),
                Some(k) => match parse_sparse_coo::<T, NDIM>(lines, h + 1, k) {
                    Ok((c, v)) => Ok(MtxData::Sparse(dims, c, v, sym)),
                    Err(e) => Err(e),
                },
            }
        } else {
            let count = match dims_product(&dims) {
                Some(p) => p,
                None => usize::MAX,
            };
            proof {
                if product(dims@) > usize::MAX {
                    lemma_dense_past_end::<T>(ls, h + 1, product(dims@));
                    lemma_dense_past_end::<T>(ls, h + 1, count as nat);
                }
            }
            match parse_dense_vec::<T>(lines, h + 1, count) {
                Ok(v) => Ok(MtxData::Dense(dims, v, sym)),
                Err(e) => Err(e),
            }
        }
    }
}

} // verus!
