use vstd::prelude::*;

verus! {

/// Index of the last occurrence of `x` in `p`, or -1 if `x` does not occur.
pub open spec fn last_pos(p: Seq<u8>, x: u8) -> int
    decreases p.len(),
{
    if p.len() == 0 {
        -1
    } else if p[p.len() - 1] == x {
        p.len() - 1
    } else {
        last_pos(p.drop_last(), x)
    }
}

pub proof fn lemma_last_pos_bounds(p: Seq<u8>, x: u8)
    ensures
        -1 <= last_pos(p, x) < p.len(),
        last_pos(p, x) >= 0 ==> p[last_pos(p, x)] == x,
    decreases p.len(),
{
    if p.len() > 0 && p[p.len() - 1] != x {
        lemma_last_pos_bounds(p.drop_last(), x);
    }
}

/// Index just past the last occurrence of `x`, or 0 if `x` does not occur.
fn pos_after_last(p: &Vec<u8>, x: u8) -> (r: usize)
    ensures
        r as int == last_pos(p@, x) + 1,
{
    let mut j: usize = p.len();
    assert(p@.take(j as int) =~= p@);
    while j > 0
        invariant
            j <= p@.len(),
            last_pos(p@, x) == last_pos(p@.take(j as int), x),
        decreases j,
    {
        if p[j - 1] == x {
            assert(p@.take(j as int)[j - 1] == p@[j - 1 as int]);
            return j;
        }
        assert(p@.take(j as int).drop_last() =~= p@.take(j - 1 as int));
        assert(p@.take(j as int)[j - 1] == p@[j - 1 as int]);
        j = j - 1;
    }
    0
}

/// The file-name part of a path: everything after the last slash.
pub open spec fn file_name_of(p: Seq<u8>) -> Seq<u8> {
    p.subrange(last_pos(p, 47u8) + 1, p.len() as int)
}

/// The file stem: the file name up to its last dot, except that a dot in
/// first position (a leading-dot name) or a missing dot leaves the name whole.
pub open spec fn stem_of(p: Seq<u8>) -> Seq<u8> {
    let n = file_name_of(p);
    let d = last_pos(n, 46u8);
    if d > 0 {
        n.take(d)
    } else {
        n
    }
}

/// Copies `v[lo..hi]` into a fresh buffer.
pub fn copy_range(v: &Vec<u8>, lo: usize, hi: usize) -> (r: Vec<u8>)
    requires
        lo <= hi <= v@.len(),
    ensures
        r@ == v@.subrange(lo as int, hi as int),
{
    let mut r: Vec<u8> = Vec::new();
    let mut i: usize = lo;
    while i < hi
        invariant
            lo <= i <= hi <= v@.len(),
            r@ =~= v@.subrange(lo as int, i as int),
        decreases hi - i,
    {
        r.push(v[i]);
        i = i + 1;
        assert(r@ =~= v@.subrange(lo as int, i as int));
    }
    r
}

/// Extracts the file stem of `p` as a fresh buffer.
pub fn stem_of_path(p: &Vec<u8>) -> (r: Vec<u8>)
    ensures
        r@ == stem_of(p@),
{
    proof {
        lemma_last_pos_bounds(p@, 47u8);
    }
    let name_start: usize = pos_after_last(p, 47u8);
    let name = copy_range(p, name_start, p.len());
    assert(name@ =~= file_name_of(p@));
    proof {
        lemma_last_pos_bounds(name@, 46u8);
    }
    let dot_end: usize = pos_after_last(&name, 46u8);
    if dot_end > 1 {
        let r = copy_range(&name, 0, dot_end - 1);
        assert(r@ =~= stem_of(p@));
        r
    } else {
        name
    }
}

/// Whether the path's file name carries the gzip suffix: it ends in ".gz"
/// with at least one character of stem before the dot.
pub open spec fn is_gz_path(p: Seq<u8>) -> bool {
    let n = file_name_of(p);
    n.len() >= 4 && n[n.len() - 3] == 46u8 && n[n.len() - 2] == 103u8 && n[n.len() - 1] == 122u8
}

pub fn is_gz_path_exec(p: &Vec<u8>) -> (r: bool)
    ensures
        r == is_gz_path(p@),
{
    proof {
        lemma_last_pos_bounds(p@, 47u8);
    }
    let name_start: usize = pos_after_last(p, 47u8);
    let l = p.len();
    let name_len = l - name_start;
    if name_len >= 4 {
        assert(file_name_of(p@)[name_len - 3] == p@[l - 3 as int]);
        assert(file_name_of(p@)[name_len - 2] == p@[l - 2 as int]);
        assert(file_name_of(p@)[name_len - 1] == p@[l - 1 as int]);
        p[l - 3] == 46u8 && p[l - 2] == 103u8 && p[l - 1] == 122u8
    } else {
        false
    }
}

/// Whether the path ends with the literal text "ubyte".
pub open spec fn is_ubyte_name(p: Seq<u8>) -> bool {
    p.len() >= 5 && p[p.len() - 5] == 117u8 && p[p.len() - 4] == 98u8 && p[p.len() - 3] == 121u8
        && p[p.len() - 2] == 116u8 && p[p.len() - 1] == 101u8
}

pub fn is_ubyte_name_exec(p: &Vec<u8>) -> (r: bool)
    ensures
        r == is_ubyte_name(p@),
{
    let l = p.len();
    l >= 5 && p[l - 5] == 117u8 && p[l - 4] == 98u8 && p[l - 3] == 121u8 && p[l - 2] == 116u8
        && p[l - 1] == 101u8
}

/// Lexicographic order on byte strings: true when `a` sorts at or before `b`.
pub open spec fn lex_leq(a: Seq<u8>, b: Seq<u8>) -> bool
    decreases a.len(),
{
    if a.len() == 0 {
        true
    } else if b.len() == 0 {
        false
    } else if a[0] < b[0] {
        true
    } else if a[0] > b[0] {
        false
    } else {
        lex_leq(a.drop_first(), b.drop_first())
    }
}

/// The lexicographic order is total.
pub proof fn lemma_lex_total(a: Seq<u8>, b: Seq<u8>)
    ensures
        lex_leq(a, b) || lex_leq(b, a),
    decreases a.len(),
{
    if a.len() > 0 && b.len() > 0 && a[0] == b[0] {
        lemma_lex_total(a.drop_first(), b.drop_first());
    }
}

/// The lexicographic order is transitive.
pub proof fn lemma_lex_trans(a: Seq<u8>, b: Seq<u8>, c: Seq<u8>)
    requires
        lex_leq(a, b),
        lex_leq(b, c),
    ensures
        lex_leq(a, c),
    decreases a.len(),
{
    if a.len() > 0 && b.len() > 0 && c.len() > 0 && a[0] == b[0] && b[0] == c[0] {
        lemma_lex_trans(a.drop_first(), b.drop_first(), c.drop_first());
    }
}

/// Compares two byte strings in lexicographic order.
pub fn lex_le(a: &Vec<u8>, b: &Vec<u8>) -> (r: bool)
    ensures
        r == lex_leq(a@, b@),
{
    let alen = a.len();
    let blen = b.len();
    let min = if alen < blen {
        alen
    } else {
        blen
    };
    let mut i: usize = 0;
    assert(a@.skip(0) =~= a@);
    assert(b@.skip(0) =~= b@);
    while i < min
        invariant
            i <= min,
            min <= a@.len(),
            min <= b@.len(),
            alen == a@.len(),
            blen == b@.len(),
            min == if alen < blen { alen as int } else { blen as int },
            lex_leq(a@, b@) == lex_leq(a@.skip(i as int), b@.skip(i as int)),
        decreases min - i,
    {
        assert(a@.skip(i as int)[0] == a@[i as int]);
        assert(b@.skip(i as int)[0] == b@[i as int]);
        if a[i] < b[i] {
            return true;
        }
        if a[i] > b[i] {
            return false;
        }
        assert(a@.skip(i as int).drop_first() =~= a@.skip(i + 1 as int));
        assert(b@.skip(i as int).drop_first() =~= b@.skip(i + 1 as int));
        i = i + 1;
    }
    alen <= blen
}

/// Length of the longest shared leading run of bytes between `a` and `b`.
pub open spec fn common_prefix_len(a: Seq<u8>, b: Seq<u8>) -> nat
    decreases a.len(),
{
    if a.len() == 0 || b.len() == 0 || a[0] != b[0] {
        0
    } else {
        (1 + common_prefix_len(a.drop_first(), b.drop_first())) as nat
    }
}

/// Counts the shared leading bytes of `a` and `b`.
pub fn common_prefix_len_exec(a: &Vec<u8>, b: &Vec<u8>) -> (r: usize)
    ensures
        r as int == common_prefix_len(a@, b@),
{
    let alen = a.len();
    let blen = b.len();
    let min = if alen < blen {
        alen
    } else {
        blen
    };
    let mut i: usize = 0;
    assert(a@.skip(0) =~= a@);
    assert(b@.skip(0) =~= b@);
    while i < min && a[i] == b[i]
        invariant
            i <= min,
            min <= a@.len(),
            min <= b@.len(),
            min == if a@.len() < b@.len() { a@.len() } else { b@.len() },
            common_prefix_len(a@, b@) == i + common_prefix_len(
                a@.skip(i as int),
                b@.skip(i as int),
            ),
        decreases min - i,
    {
        assert(a@.skip(i as int)[0] == a@[i as int]);
        assert(b@.skip(i as int)[0] == b@[i as int]);
        assert(a@.skip(i as int).drop_first() =~= a@.skip(i + 1 as int));
        assert(b@.skip(i as int).drop_first() =~= b@.skip(i + 1 as int));
        i = i + 1;
    }
    proof {
        if i < min {
            assert(a@.skip(i as int)[0] == a@[i as int]);
            assert(b@.skip(i as int)[0] == b@[i as int]);
        }
    }
    i
}

} // verus!
