//! Properties of reading that hold for every input.
use crate::matrix::{MtxData, MtxDataView, MtxError, MtxErrorView};
use crate::parse::{
    banner_of, body_of, coord_of, dense_body, entry_of, entry_word_ok, first_bad_entry_word, first_record, is_banner, is_blank, is_comment, is_filler,
    outcome_matches, parse_lines, past_comments, product, sizes_of, sparse_body,

};
use crate::scalar::Scalar;
use crate::text::{digit_value, digits_value, is_digit_run, is_ws, usize_of, words, words_from};
use vstd::prelude::*;

verus! {

/// The index of the size line: the first record, or, after a banner, the next
/// line that is neither a comment nor blank.
pub open spec fn size_line_index(ls: Seq<Seq<char>>) -> int {
    let b = first_record(ls, 0);
    if b < ls.len() && is_banner(ls[b]) {
        past_comments(ls, b + 1)
    } else {
        b
    }
}

proof fn lemma_sparse_body_len<T: Scalar>(ls: Seq<Seq<char>>, start: int, nnz: nat, n: nat)
    requires
        sparse_body::<T>(ls, start, nnz, n) is Ok,
    ensures
        ({
            let (c, v) = sparse_body::<T>(ls, start, nnz, n)->Ok_0;
            &&& c.len() == nnz
            &&& v.len() == nnz
            &&& forall|i: int| 0 <= i < nnz ==> (#[trigger] c[i]).len() == n
        }),
    decreases nnz,
{
    if nnz > 0 {
        lemma_sparse_body_len::<T>(ls, start, (nnz - 1) as nat, n);
    }
}

proof fn lemma_dense_body_len<T: Scalar>(ls: Seq<Seq<char>>, start: int, count: nat)
    requires
        dense_body::<T>(ls, start, count) is Ok,
    ensures
        dense_body::<T>(ls, start, count)->Ok_0.len() == count,
    decreases count,
{
    if count > 0 {
        lemma_dense_body_len::<T>(ls, start, (count - 1) as nat);
    }
}

/// A sparse matrix that was read holds exactly as many coordinates and values
/// as its size line declares, each coordinate with one index per dimension; a
/// dense one holds exactly as many values as the product of its dimensions.
pub proof fn lemma_cardinality<T: Scalar>(ls: Seq<Seq<char>>, n: nat)
    ensures
        match parse_lines::<T>(ls, n) {
            Ok(MtxDataView::Sparse { dims, coords, values, sym: _ }) => {
                &&& sizes_of(ls[size_line_index(ls)], n) == Ok::<
                    (Seq<usize>, Option<usize>),
                    MtxErrorView,
                >((dims, Some(coords.len() as usize)))
                &&& values.len() == coords.len()
                &&& dims.len() == n
                &&& forall|i: int| 0 <= i < coords.len() ==> (#[trigger] coords[i]).len() == n
            },
            Ok(MtxDataView::Dense { dims, values, sym: _ }) => {
                &&& dims.len() == n
                &&& values.len() == product(dims)
            },
            Err(_) => true,
        },
{
    let h = size_line_index(ls);
    if parse_lines::<T>(ls, n) is Ok {
        match sizes_of(ls[h], n) {
            Ok((dims, nnz)) => {
                match nnz {
                    Some(k) => {
                        if sparse_body::<T>(ls, h + 1, k as nat, n) is Ok {
                            lemma_sparse_body_len::<T>(ls, h + 1, k as nat, n);
                        }
                    },
                    None => {},
                }
                if dense_body::<T>(ls, h + 1, product(dims)) is Ok {
                    lemma_dense_body_len::<T>(ls, h + 1, product(dims));
                }
            },
            Err(_) => {},
        }
    }
}

/// Reading the same lines twice gives equal results: equal matrices, or
/// equal errors.
pub proof fn lemma_reading_twice_agrees<T: Scalar, const NDIM: usize>(
    ls: Seq<Seq<char>>,
    r1: Result<MtxData<T, NDIM>, MtxError>,
    r2: Result<MtxData<T, NDIM>, MtxError>,
)
    requires
        outcome_matches(r1, parse_lines::<T>(ls, NDIM as nat)),
        outcome_matches(r2, parse_lines::<T>(ls, NDIM as nat)),
    ensures
        match (r1, r2) {
            (Ok(a), Ok(b)) => a@ == b@,
            (Err(a), Err(b)) => a@ == b@,
            _ => false,
        },
{
}

proof fn lemma_past_comments_to_end(ls: Seq<Seq<char>>, i: int)
    requires
        0 <= i,
        forall|k: int| i <= k < ls.len() ==> is_blank(#[trigger] ls[k]) || is_comment(ls[k]),
    ensures
        past_comments(ls, i) == ls.len(),
    decreases ls.len() - i,
{
    if i < ls.len() {
        lemma_past_comments_to_end(ls, i + 1);
    }
}

/// Lines that are all comments or blank never give a matrix: reading them
/// fails with `EarlyEOF`, unless the first of them that is not skipped is a
/// malformed banner, which fails as such.
pub proof fn lemma_no_data_is_early_eof<T: Scalar>(ls: Seq<Seq<char>>, n: nat)
    requires
        forall|k: int| 0 <= k < ls.len() ==> is_blank(#[trigger] ls[k]) || is_comment(ls[k]),
    ensures
        ({
            let b = first_record(ls, 0);
            parse_lines::<T>(ls, n) == if b < ls.len() && banner_of(ls[b]) is Err {
                Err::<MtxDataView<T>, MtxErrorView>(banner_of(ls[b])->Err_0)
            } else {
                Err(MtxErrorView::EarlyEOF)
            }
        }),
{
    let b = first_record(ls, 0);
    lemma_first_record_bounds(ls, 0);
    if b < ls.len() {
        lemma_past_comments_to_end(ls, b + 1);
    }
}

/// Where the first record lies.
pub proof fn lemma_first_record_bounds(ls: Seq<Seq<char>>, i: int)
    requires
        0 <= i,
    ensures
        i <= first_record(ls, i) || (i > ls.len() && first_record(ls, i) == ls.len()),
        first_record(ls, i) <= ls.len() || i > ls.len(),
        first_record(ls, i) < ls.len() ==> !is_filler(ls[first_record(ls, i)]),
    decreases ls.len() - i,
{
    if i < ls.len() && is_filler(ls[i]) {
        lemma_first_record_bounds(ls, i + 1);
    }
}

/// `ls2` holds the lines of `ls` from index `from` on, `m` places further down,
/// and nothing after them.
pub open spec fn shifted_from(ls: Seq<Seq<char>>, ls2: Seq<Seq<char>>, from: int, m: int) -> bool {
    &&& ls2.len() == ls.len() + m
    &&& forall|i: int| from <= i < ls.len() ==> ls2[i + m] == ls[i]
}

proof fn lemma_sparse_shift<T: Scalar>(
    ls: Seq<Seq<char>>,
    ls2: Seq<Seq<char>>,
    from: int,
    m: int,
    start: int,
    nnz: nat,
    n: nat,
)
    requires
        shifted_from(ls, ls2, from, m),
        0 <= m,
        from <= start,
    ensures
        sparse_body::<T>(ls2, start + m, nnz, n) == sparse_body::<T>(ls, start, nnz, n),
    decreases nnz,
{
    if nnz > 0 {
        lemma_sparse_shift::<T>(ls, ls2, from, m, start, (nnz - 1) as nat, n);
        let i = start + nnz - 1;
        assert(start + m + nnz - 1 == i + m);
        if i < ls.len() {
            assert(ls2[i + m] == ls[i]);
        }
    }
}

proof fn lemma_dense_shift<T: Scalar>(
    ls: Seq<Seq<char>>,
    ls2: Seq<Seq<char>>,
    from: int,
    m: int,
    start: int,
    count: nat,
)
    requires
        shifted_from(ls, ls2, from, m),
        0 <= m,
        from <= start,
    ensures
        dense_body::<T>(ls2, start + m, count) == dense_body::<T>(ls, start, count),
    decreases count,
{
    if count > 0 {
        lemma_dense_shift::<T>(ls, ls2, from, m, start, (count - 1) as nat);
        let i = start + count - 1;
        assert(start + m + count - 1 == i + m);
        if i < ls.len() {
            assert(ls2[i + m] == ls[i]);
        }
    }
}

proof fn lemma_body_shift<T: Scalar>(
    ls: Seq<Seq<char>>,
    ls2: Seq<Seq<char>>,
    from: int,
    m: int,
    h: int,
    sparse: bool,
    sym: crate::matrix::SymInfo,
    n: nat,
)
    requires
        shifted_from(ls, ls2, from, m),
        0 <= m,
        from <= h < ls.len(),
    ensures
        body_of::<T>(ls2, h + m, sparse, sym, n) == body_of::<T>(ls, h, sparse, sym, n),
{
    assert(ls2[h + m] == ls[h]);
    match sizes_of(ls[h], n) {
        Ok((dims, nnz)) => {
            match nnz {
                Some(k) => lemma_sparse_shift::<T>(ls, ls2, from, m, h + 1, k as nat, n),
                None => {},
            }
            lemma_dense_shift::<T>(ls, ls2, from, m, h + 1, product(dims));
            assert(h + m + 1 == h + 1 + m);
        },
        Err(_) => {},
    }
}

proof fn lemma_past_comments_shift(ls: Seq<Seq<char>>, ls2: Seq<Seq<char>>, from: int, m: int, i: int)
    requires
        shifted_from(ls, ls2, from, m),
        0 <= m,
        from <= i,
    ensures
        past_comments(ls2, i + m) == past_comments(ls, i) + m,
    decreases ls.len() - i,
{
    if i < ls.len() {
        assert(ls2[i + m] == ls[i]);
        lemma_past_comments_shift(ls, ls2, from, m, i + 1);
        assert(i + 1 + m == i + m + 1);
    }
}

proof fn lemma_first_record_shift(ls: Seq<Seq<char>>, ls2: Seq<Seq<char>>, from: int, m: int, i: int)
    requires
        shifted_from(ls, ls2, from, m),
        0 <= m,
        from <= i,
    ensures
        first_record(ls2, i + m) == first_record(ls, i) + m,
    decreases ls.len() - i,
{
    if i < ls.len() {
        assert(ls2[i + m] == ls[i]);
        lemma_first_record_shift(ls, ls2, from, m, i + 1);
        assert(i + 1 + m == i + m + 1);
    }
}

proof fn lemma_past_comments_skip(ls: Seq<Seq<char>>, i: int, j: int)
    requires
        0 <= i <= j <= ls.len(),
        forall|t: int| i <= t < j ==> is_comment(#[trigger] ls[t]) || is_blank(ls[t]),
    ensures
        past_comments(ls, i) == past_comments(ls, j),
    decreases j - i,
{
    if i < j {
        lemma_past_comments_skip(ls, i + 1, j);
    }
}

proof fn lemma_first_record_skip(ls: Seq<Seq<char>>, i: int, j: int)
    requires
        0 <= i <= j <= ls.len(),
        forall|t: int| i <= t < j ==> is_filler(#[trigger] ls[t]),
    ensures
        first_record(ls, i) == first_record(ls, j),
    decreases j - i,
{
    if i < j {
        lemma_first_record_skip(ls, i + 1, j);
    }
}

proof fn lemma_first_record_prefix(ls: Seq<Seq<char>>, ls2: Seq<Seq<char>>, i: int)
    requires
        0 <= i <= first_record(ls, i) < ls.len(),
        first_record(ls, i) < ls2.len(),
        forall|t: int| 0 <= t <= first_record(ls, i) ==> ls2[t] == ls[t],
    ensures
        first_record(ls2, i) == first_record(ls, i),
    decreases ls.len() - i,
{
    if is_filler(ls[i]) {
        assert(ls2[i] == ls[i]);
        lemma_first_record_bounds(ls, i + 1);
        lemma_first_record_prefix(ls, ls2, i + 1);
    } else {
        assert(ls2[i] == ls[i]);
    }
}

/// Comment lines (other than banners) put before the first line change
/// nothing that is read.
pub proof fn lemma_comments_before_first_line<T: Scalar>(c: Seq<Seq<char>>, ls: Seq<Seq<char>>, n: nat)
    requires
        forall|k: int| 0 <= k < c.len() ==> is_comment(#[trigger] c[k]) && !is_banner(c[k]),
    ensures
        parse_lines::<T>(c + ls, n) == parse_lines::<T>(ls, n),
{
    let ls2 = c + ls;
    let m = c.len() as int;
    assert(shifted_from(ls, ls2, 0, m));
    assert forall|t: int| 0 <= t < m implies is_filler(#[trigger] ls2[t]) by {
        assert(ls2[t] == c[t]);
    }
    lemma_first_record_skip(ls2, 0, m);
    lemma_first_record_shift(ls, ls2, 0, m, 0);
    lemma_first_record_bounds(ls, 0);
    let b = first_record(ls, 0);
    if b < ls.len() {
        assert(ls2[b + m] == ls[b]);
        if is_banner(ls[b]) {
            lemma_past_comments_shift(ls, ls2, 0, m, b + 1);
            assert(b + m + 1 == b + 1 + m);
            let h = past_comments(ls, b + 1);
            if h < ls.len() {
                lemma_past_comments_bounds(ls, b + 1);
                if let Ok((sparse, sym)) = banner_of(ls[b]) {
                    lemma_body_shift::<T>(ls, ls2, 0, m, h, sparse, sym, n);
                }
            }
        } else {
            lemma_body_shift::<T>(ls, ls2, 0, m, b, words(ls[b]).len() > n, crate::matrix::SymInfo::General, n);
        }
    }
}

/// Where the size line after a banner lies.
pub proof fn lemma_past_comments_bounds(ls: Seq<Seq<char>>, i: int)
    requires
        0 <= i,
    ensures
        i <= past_comments(ls, i) || (i > ls.len() && past_comments(ls, i) == ls.len()),
    decreases ls.len() - i,
{
    if i < ls.len() && (is_comment(ls[i]) || is_blank(ls[i])) {
        lemma_past_comments_bounds(ls, i + 1);
    }
}

/// Comment lines put between the banner and the size line change nothing
/// that is read.
pub proof fn lemma_comments_before_size_line<T: Scalar>(
    ls: Seq<Seq<char>>,
    c: Seq<Seq<char>>,
    k: int,
    n: nat,
)
    requires
        first_record(ls, 0) < k <= ls.len(),
        is_banner(ls[first_record(ls, 0)]),
        forall|i: int| first_record(ls, 0) < i < k ==> is_comment(#[trigger] ls[i]) || is_blank(ls[i]),
        forall|j: int| 0 <= j < c.len() ==> is_comment(#[trigger] c[j]),
    ensures
        parse_lines::<T>(ls.take(k) + c + ls.skip(k), n) == parse_lines::<T>(ls, n),
{
    let ls2 = ls.take(k) + c + ls.skip(k);
    let m = c.len() as int;
    let b = first_record(ls, 0);
    lemma_first_record_bounds(ls, 0);
    assert forall|t: int| 0 <= t < k implies ls2[t] == ls[t] by {}
    assert forall|t: int| k <= t < ls.len() implies ls2[t + m] == ls[t] by {}
    assert(shifted_from(ls, ls2, k, m));
    lemma_first_record_prefix(ls, ls2, 0);
    assert(ls2[b] == ls[b]);
    assert forall|t: int| b + 1 <= t < k + m implies is_comment(#[trigger] ls2[t]) || is_blank(ls2[t]) by {
        if t < k {
            assert(ls2[t] == ls[t]);
        } else {
            assert(ls2[t] == c[t - k]);
        }
    }
    lemma_past_comments_skip(ls2, b + 1, k + m);
    lemma_past_comments_skip(ls, b + 1, k);
    lemma_past_comments_shift(ls, ls2, k, m, k);
    let h = past_comments(ls, k);
    lemma_past_comments_bounds(ls, k);
    if h < ls.len() {
        if let Ok((sparse, sym)) = banner_of(ls[b]) {
            lemma_body_shift::<T>(ls, ls2, k, m, h, sparse, sym, n);
        }
    }
}

/// The character of a decimal digit.
pub open spec fn digit_char(d: nat) -> char {
    if d == 0 {
        '0'
    } else if d == 1 {
        '1'
    } else if d == 2 {
        '2'
    } else if d == 3 {
        '3'
    } else if d == 4 {
        '4'
    } else if d == 5 {
        '5'
    } else if d == 6 {
        '6'
    } else if d == 7 {
        '7'
    } else if d == 8 {
        '8'
    } else {
        '9'
    }
}

/// How `v` is written in decimal: no sign, no leading zero.
pub open spec fn decimal_text(v: nat) -> Seq<char>
    decreases v,
{
    if v < 10 {
        seq![digit_char(v)]
    } else {
        decimal_text(v / 10).push(digit_char(v % 10))
    }
}

proof fn lemma_decimal_text(v: nat)
    ensures
        is_digit_run(decimal_text(v)),
        digits_value(decimal_text(v)) == v,
        decimal_text(v)[0] != '+',
        forall|k: int| 0 <= k < decimal_text(v).len() ==> !is_ws(#[trigger] decimal_text(v)[k]),
    decreases v,
{
    let d = (v % 10) as nat;
    assert(digit_value(digit_char(d)) == d && '0' <= digit_char(d) <= '9');
    if v >= 10 {
        lemma_decimal_text(v / 10);
        let t = decimal_text(v);
        assert(t.drop_last() =~= decimal_text(v / 10));
        assert(t.last() == digit_char(d));
        vstd::arithmetic::div_mod::lemma_fundamental_div_mod(v as int, 10);
        assert(digits_value(t) == (v / 10) * 10 + d);
        assert forall|k: int| 0 <= k < t.len() implies '0' <= #[trigger] t[k] <= '9' by {
            if k < t.len() - 1 {
                assert(t[k] == decimal_text(v / 10)[k]);
            }
        }
    } else {
        assert(d == v);
        assert(seq![digit_char(v)].drop_last() =~= Seq::<char>::empty());
        assert(digits_value(Seq::<char>::empty()) == 0);
        assert(seq![digit_char(v)].last() == digit_char(v));
        assert(digits_value(seq![digit_char(v)]) == digit_value(digit_char(v)));
    }
}

proof fn lemma_words_of_word(a: Seq<char>, rest: Seq<char>, cur: Seq<char>)
    requires
        forall|k: int| 0 <= k < a.len() ==> !is_ws(#[trigger] a[k]),
    ensures
        words_from(a + rest, cur) == words_from(rest, cur + a),
    decreases a.len(),
{
    if a.len() == 0 {
        assert(a + rest =~= rest);
        assert(cur + a =~= cur);
    } else {
        assert((a + rest)[0] == a[0]);
        assert((a + rest).drop_first() =~= a.drop_first() + rest);
        assert(cur.push(a[0]) + a.drop_first() =~= cur + a);
        assert forall|k: int| 0 <= k < a.drop_first().len() implies !is_ws(#[trigger] a.drop_first()[k]) by {
            assert(a.drop_first()[k] == a[k + 1]);
        }
        lemma_words_of_word(a.drop_first(), rest, cur.push(a[0]));
    }
}

proof fn lemma_words_after_space(rest: Seq<char>, cur: Seq<char>)
    requires
        cur.len() > 0,
    ensures
        words_from(seq![' '] + rest, cur) == seq![cur] + words_from(rest, seq![]),
{
    assert((seq![' '] + rest).drop_first() =~= rest);
}

/// An entry line `i j value`, with `i, j >= 1` written in decimal and one space
/// between words, reads as the 0-based coordinate `[i - 1, j - 1]` and the
/// value.
pub proof fn lemma_coordinate_round_trip<T: Scalar>(i: usize, j: usize, v: Seq<char>)
    requires
        1 <= i,
        1 <= j,
        v.len() > 0,
        forall|k: int| 0 <= k < v.len() ==> !is_ws(#[trigger] v[k]),
        T::spec_from_dec(v) is Some,
    ensures
        entry_of::<T>(decimal_text(i as nat) + seq![' '] + decimal_text(j as nat) + seq![' '] + v, 2)
            == Ok::<(Seq<usize>, T), crate::matrix::MtxErrorView>(
            (seq![(i - 1) as usize, (j - 1) as usize], T::spec_from_dec(v)->0),
        ),
{
    let a = decimal_text(i as nat);
    let b = decimal_text(j as nat);
    let sp: Seq<char> = seq![' '];
    let line = a + sp + b + sp + v;
    lemma_decimal_text(i as nat);
    lemma_decimal_text(j as nat);
    assert(line =~= a + (sp + (b + (sp + v))));
    lemma_words_of_word(a, sp + (b + (sp + v)), seq![]);
    assert(seq![] + a =~= a);
    lemma_words_after_space(b + (sp + v), a);
    lemma_words_of_word(b, sp + v, seq![]);
    assert(seq![] + b =~= b);
    lemma_words_after_space(v, b);
    lemma_words_of_word(v, seq![], seq![]);
    assert(v + seq![] =~= v);
    assert(seq![] + v =~= v);
    let w = words(line);
    assert(w =~= seq![a, b, v]);
    assert(usize_of(a) == Some(i));
    assert(usize_of(b) == Some(j));
    assert(coord_of(a) == Some((i - 1) as usize));
    assert(coord_of(b) == Some((j - 1) as usize));
    assert(entry_word_ok::<T>(w, 2, 0));
    assert(entry_word_ok::<T>(w, 2, 1));
    assert(entry_word_ok::<T>(w, 2, 2));
    assert(first_bad_entry_word::<T>(w, 2, 3, 3) == 3);
    assert(first_bad_entry_word::<T>(w, 2, 2, 3) == 3);
    assert(first_bad_entry_word::<T>(w, 2, 1, 3) == 3);
    assert(first_bad_entry_word::<T>(w, 2, 0, 3) == 3);
    assert(Seq::new(2, |t: int| coord_of(w[t])->0) =~= seq![(i - 1) as usize, (j - 1) as usize]);
}

} // verus!
