//! The orders in which results are listed, stated as integer comparisons
//! (negative, zero, positive) so that they can be chained.

use vstd::prelude::*;
use core::cmp::Ordering;
use crate::text::{entry_name_of, chars_of, entry_name};

verus! {

/// What `str::to_lowercase` makes of a string.
pub uninterp spec fn lower_of(s: Seq<char>) -> Seq<char>;

/// Relies on `str::to_lowercase`, whose result depends on the characters alone.
#[verifier::external_body]
pub(crate) fn lowercase(s: &str) -> (r: String)
    ensures
        r@ == lower_of(s@),
{
    s.to_lowercase()
}

pub open spec fn ord_int(o: Ordering) -> int {
    match o {
        Ordering::Less => -1,
        Ordering::Equal => 0,
        Ordering::Greater => 1,
    }
}

/// Lexicographic comparison by code point, which is how `str` orders.
pub open spec fn seq_cmp(x: Seq<char>, y: Seq<char>) -> int
    decreases x.len(),
{
    if x.len() == 0 {
        if y.len() == 0 {
            0
        } else {
            -1
        }
    } else if y.len() == 0 {
        1
    } else if x[0] < y[0] {
        -1
    } else if x[0] > y[0] {
        1
    } else {
        seq_cmp(x.drop_first(), y.drop_first())
    }
}

/// Lower-cased leaf names first, then the full paths.
pub open spec fn name_cmp(a: Seq<char>, b: Seq<char>) -> int {
    let c = seq_cmp(lower_of(entry_name_of(a)), lower_of(entry_name_of(b)));
    if c != 0 {
        c
    } else {
        seq_cmp(a, b)
    }
}

/// Present times first, in increasing order; absent ones last.
pub open spec fn time_cmp(x: Option<i64>, y: Option<i64>) -> int {
    match (x, y) {
        (Some(a), Some(b)) => if a < b {
            -1
        } else if a > b {
            1
        } else {
            0
        },
        (Some(_), None) => -1,
        (None, Some(_)) => 1,
        (None, None) => 0,
    }
}

pub proof fn lemma_seq_cmp(x: Seq<char>, y: Seq<char>)
    ensures
        seq_cmp(x, y) == -seq_cmp(y, x),
        -1 <= seq_cmp(x, y) <= 1,
        seq_cmp(x, y) == 0 <==> x == y,
    decreases x.len(),
{
    if x.len() > 0 && y.len() > 0 {
        lemma_seq_cmp(x.drop_first(), y.drop_first());
        if x[0] == y[0] && x.drop_first() == y.drop_first() {
            assert(x == seq![x[0]] + x.drop_first());
            assert(y == seq![y[0]] + y.drop_first());
        }
    }
    if x.len() == 0 && y.len() == 0 {
        assert(x == y);
    }
}

pub proof fn lemma_seq_cmp_trans(x: Seq<char>, y: Seq<char>, z: Seq<char>)
    requires
        seq_cmp(x, y) <= 0,
        seq_cmp(y, z) <= 0,
    ensures
        seq_cmp(x, z) <= 0,
        seq_cmp(x, y) < 0 || seq_cmp(y, z) < 0 ==> seq_cmp(x, z) < 0,
    decreases x.len(),
{
    lemma_seq_cmp(x, y);
    lemma_seq_cmp(y, z);
    lemma_seq_cmp(x, z);
    if x.len() > 0 && y.len() > 0 && z.len() > 0 {
        if x[0] == y[0] && y[0] == z[0] {
            lemma_seq_cmp_trans(x.drop_first(), y.drop_first(), z.drop_first());
        }
    }
}

pub proof fn lemma_name_cmp(a: Seq<char>, b: Seq<char>)
    ensures
        name_cmp(a, b) == -name_cmp(b, a),
        name_cmp(a, b) == 0 <==> a == b,
{
    lemma_seq_cmp(lower_of(entry_name_of(a)), lower_of(entry_name_of(b)));
    lemma_seq_cmp(a, b);
}

pub proof fn lemma_name_cmp_trans(a: Seq<char>, b: Seq<char>, c: Seq<char>)
    requires
        name_cmp(a, b) <= 0,
        name_cmp(b, c) <= 0,
    ensures
        name_cmp(a, c) <= 0,
        name_cmp(a, b) < 0 || name_cmp(b, c) < 0 ==> name_cmp(a, c) < 0,
{
    let (la, lb, lc) = (
        lower_of(entry_name_of(a)),
        lower_of(entry_name_of(b)),
        lower_of(entry_name_of(c)),
    );
    lemma_seq_cmp(la, lb);
    lemma_seq_cmp(lb, lc);
    lemma_seq_cmp(la, lc);
    lemma_seq_cmp(a, b);
    lemma_seq_cmp(b, c);
    lemma_seq_cmp(a, c);
    lemma_seq_cmp_trans(la, lb, lc);
    if seq_cmp(la, lb) == 0 && seq_cmp(lb, lc) == 0 {
        lemma_seq_cmp_trans(a, b, c);
    }
}

pub fn compare_seqs(x: &Vec<char>, y: &Vec<char>) -> (r: Ordering)
    ensures
        ord_int(r) == seq_cmp(x@, y@),
{
    let mut i: usize = 0;
    assert(x@.skip(0) == x@);
    assert(y@.skip(0) == y@);
    while i < x.len() && i < y.len()
        invariant
            i <= x.len(),
            i <= y.len(),
            seq_cmp(x@, y@) == seq_cmp(x@.skip(i as int), y@.skip(i as int)),
        decreases x.len() - i,
    {
        let a = x[i];
        let b = y[i];
        if a < b {
            return Ordering::Less;
        }
        if a > b {
            return Ordering::Greater;
        }
        assert(x@.skip(i as int).drop_first() == x@.skip(i + 1));
        assert(y@.skip(i as int).drop_first() == y@.skip(i + 1));
        i = i + 1;
    }
    if x.len() == i && y.len() == i {
        Ordering::Equal
    } else if x.len() == i {
        Ordering::Less
    } else {
        Ordering::Greater
    }
}

pub fn compare_names(left: &str, right: &str) -> (r: Ordering)
    ensures
        ord_int(r) == name_cmp(left@, right@),
{
    let left_name = chars_of(lowercase(entry_name(left).as_str()).as_str());
    let right_name = chars_of(lowercase(entry_name(right).as_str()).as_str());
    let by_name = compare_seqs(&left_name, &right_name);
    match by_name {
        Ordering::Equal => compare_seqs(&chars_of(left), &chars_of(right)),
        _ => by_name,
    }
}

} // verus!
