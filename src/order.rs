//! The two orders an archive is built in: names by their bytes, records by
//! checksum; and sums taken along an order.
use crate::export_file::ExportFile;
use crate::filename::name_bytes;
use vstd::prelude::*;

verus! {

/// `a` comes strictly before `b` in lexicographic byte order.
pub open spec fn bytes_lt(a: Seq<u8>, b: Seq<u8>) -> bool
    decreases a.len(),
{
    if b.len() == 0 {
        false
    } else if a.len() == 0 {
        true
    } else if a[0] != b[0] {
        a[0] < b[0]
    } else {
        bytes_lt(a.drop_first(), b.drop_first())
    }
}

/// No sequence comes before itself, nor both before and after another.
pub proof fn lemma_bytes_lt_asymmetric(a: Seq<u8>, b: Seq<u8>)
    ensures
        bytes_lt(a, b) ==> !bytes_lt(b, a),
    decreases a.len(),
{
    if a.len() > 0 && b.len() > 0 && a[0] == b[0] {
        lemma_bytes_lt_asymmetric(a.drop_first(), b.drop_first());
    }
}

/// Of two different sequences, one comes before the other.
pub proof fn lemma_bytes_lt_total(a: Seq<u8>, b: Seq<u8>)
    ensures
        a != b ==> bytes_lt(a, b) || bytes_lt(b, a),
    decreases a.len(),
{
    if a.len() > 0 && b.len() > 0 && a[0] == b[0] {
        lemma_bytes_lt_total(a.drop_first(), b.drop_first());
        if a.drop_first() == b.drop_first() {
            assert(a =~= seq![a[0]] + a.drop_first());
            assert(b =~= seq![b[0]] + b.drop_first());
        }
    } else if a.len() == 0 && b.len() == 0 {
        assert(a =~= b);
    }
}

/// Lexicographic byte order is transitive.
pub proof fn lemma_bytes_lt_transitive(a: Seq<u8>, b: Seq<u8>, c: Seq<u8>)
    ensures
        bytes_lt(a, b) && bytes_lt(b, c) ==> bytes_lt(a, c),
    decreases a.len(),
{
    if a.len() > 0 && b.len() > 0 && c.len() > 0 && a[0] == b[0] && b[0] == c[0] {
        lemma_bytes_lt_transitive(a.drop_first(), b.drop_first(), c.drop_first());
    }
}

/// Whether `a` comes strictly before `b` in lexicographic byte order.
pub fn bytes_less(a: &[u8], b: &[u8]) -> (r: bool)
    ensures
        r == bytes_lt(a@, b@),
{
    let mut i: usize = 0;
    assert(a@.skip(0) =~= a@);
    assert(b@.skip(0) =~= b@);
    while i < a.len() && i < b.len() && a[i] == b[i]
        invariant
            i <= a@.len(),
            i <= b@.len(),
            bytes_lt(a@, b@) == bytes_lt(a@.skip(i as int), b@.skip(i as int)),
        decreases a@.len() - i,
    {
        assert(a@.skip(i as int).drop_first() =~= a@.skip(i + 1));
        assert(b@.skip(i as int).drop_first() =~= b@.skip(i + 1));
        i = i + 1;
    }
    if i == b.len() {
        false
    } else if i == a.len() {
        true
    } else {
        a[i] < b[i]
    }
}

/// The bytes of the name of input `x`.
pub open spec fn file_name_bytes(files: Seq<ExportFile>, x: int) -> Seq<u8> {
    name_bytes(files[x].internal_file_name@)
}

/// Input `x` comes before input `y` in name order: by name bytes, and
/// between equal names by position in the input.
pub open spec fn name_key_lt(files: Seq<ExportFile>, x: int, y: int) -> bool {
    bytes_lt(file_name_bytes(files, x), file_name_bytes(files, y))
        || (file_name_bytes(files, x) == file_name_bytes(files, y) && x < y)
}

/// Position `x` comes before position `y` in storage order: by checksum,
/// and between equal checksums by position.
pub open spec fn crc_key_lt(crcs: Seq<u32>, x: int, y: int) -> bool {
    crcs[x] < crcs[y] || (crcs[x] == crcs[y] && x < y)
}

/// `s` lists each of `0..n` exactly once.
pub open spec fn is_permutation(s: Seq<usize>, n: nat) -> bool {
    &&& s.len() == n
    &&& s.no_duplicates()
    &&& forall|i: int| 0 <= i < s.len() ==> (#[trigger] s[i] as int) < n
}

/// The sum of `f` along `s`.
pub open spec fn sum_by(s: Seq<usize>, f: spec_fn(int) -> int) -> int
    decreases s.len(),
{
    if s.len() == 0 {
        0
    } else {
        sum_by(s.drop_last(), f) + f(s.last() as int)
    }
}

/// `0, 1, ..., n - 1`.
pub open spec fn iota(n: nat) -> Seq<usize> {
    Seq::new(n, |i: int| i as usize)
}

/// Inserting an element adds its value to the sum.
pub proof fn lemma_sum_insert(s: Seq<usize>, p: int, x: usize, f: spec_fn(int) -> int)
    requires
        0 <= p <= s.len(),
    ensures
        sum_by(s.insert(p, x), f) == sum_by(s, f) + f(x as int),
    decreases s.len(),
{
    if p < s.len() {
        lemma_sum_insert(s.drop_last(), p, x, f);
        assert(s.insert(p, x).drop_last() =~= s.drop_last().insert(p, x));
    } else {
        assert(s.insert(p, x) =~= s.push(x));
        assert(s.push(x).drop_last() =~= s);
    }
}

/// Summing along `iota(n)` the values that `s` selects is summing along `s`.
pub proof fn lemma_sum_through(s: Seq<usize>, f: spec_fn(int) -> int, g: spec_fn(int) -> int)
    requires
        forall|j: int| 0 <= j < s.len() ==> #[trigger] g(j) == f(s[j] as int),
        s.len() < usize::MAX,
    ensures
        sum_by(iota(s.len()), g) == sum_by(s, f),
    decreases s.len(),
{
    if s.len() > 0 {
        lemma_sum_through(s.drop_last(), f, g);
        assert(iota(s.len()).drop_last() =~= iota(s.drop_last().len()));
    }
}

/// A sum of values that are never negative does not shrink as `s` grows.
pub proof fn lemma_sum_prefix_le(s: Seq<usize>, k: int, f: spec_fn(int) -> int)
    requires
        0 <= k <= s.len(),
        forall|x: int| #[trigger] f(x) >= 0,
    ensures
        sum_by(s.subrange(0, k), f) <= sum_by(s, f),
        sum_by(s.subrange(0, k), f) >= 0,
    decreases s.len(),
{
    if k < s.len() {
        lemma_sum_prefix_le(s.drop_last(), k, f);
        assert(s.drop_last().subrange(0, k) =~= s.subrange(0, k));
    } else {
        assert(s.subrange(0, k) =~= s);
        if s.len() > 0 {
            lemma_sum_prefix_le(s.drop_last(), k - 1, f);
            assert(s.drop_last().subrange(0, k - 1) =~= s.drop_last());
        }
    }
}

/// The inputs' indices in name order.
pub fn sort_by_name(files: &Vec<ExportFile>) -> (order: Vec<usize>)
    ensures
        is_permutation(order@, files@.len()),
        forall|a: int, b: int|
            0 <= a < b < order@.len() ==> name_key_lt(files@, #[trigger] order@[a] as int, #[trigger] order@[b] as int),
        forall|f: spec_fn(int) -> int| #[trigger] sum_by(order@, f) == sum_by(iota(files@.len()), f),
{
    let mut order: Vec<usize> = Vec::new();
    let n = files.len();
    let mut i: usize = 0;
    while i < n
        invariant
            n == files@.len(),
            i <= n,
            is_permutation(order@, i as nat),
            forall|a: int, b: int|
                0 <= a < b < order@.len() ==> name_key_lt(files@, #[trigger] order@[a] as int, #[trigger] order@[b] as int),
            forall|f: spec_fn(int) -> int| #[trigger] sum_by(order@, f) == sum_by(iota(i as nat), f),
        decreases n - i,
    {
        let key = files[i].internal_file_name.as_str().as_bytes();
        let mut p: usize = 0;
        while p < order.len()
            && !(bytes_less(key, files[order[p]].internal_file_name.as_str().as_bytes())
            || (i < order[p] && !bytes_less(files[order[p]].internal_file_name.as_str().as_bytes(), key)))
            invariant
                n == files@.len(),
                i < n,
                key@ == file_name_bytes(files@, i as int),
                is_permutation(order@, i as nat),
                p <= order@.len(),
                forall|q: int| 0 <= q < p ==> name_key_lt(files@, #[trigger] order@[q] as int, i as int),
            decreases order@.len() - p,
        {
            proof {
                let o = order@[p as int] as int;
                lemma_bytes_lt_total(file_name_bytes(files@, o), key@);
            }
            p = p + 1;
        }
        proof {
            if p < order.len() {
                let o = order@[p as int] as int;
                lemma_bytes_lt_total(file_name_bytes(files@, o), key@);
                lemma_bytes_lt_asymmetric(key@, file_name_bytes(files@, o));
                assert(name_key_lt(files@, i as int, o));
            }
        }
        let ghost old_order = order@;
        order.insert(p, i);
        proof {
            assert forall|a: int, b: int| 0 <= a < b < order@.len() implies name_key_lt(files@, #[trigger] order@[a] as int, #[trigger] order@[b] as int) by {
                if a < p && b == p {
                } else if a < p && b > p {
                    assert(old_order[b - 1] == order@[b]);
                } else if a == p && b > p {
                    let o = old_order[p as int] as int;
                    let ob = order@[b] as int;
                    if b - 1 > p {
                        lemma_bytes_lt_transitive(file_name_bytes(files@, i as int), file_name_bytes(files@, o), file_name_bytes(files@, ob));
                    }
                    assert(name_key_lt(files@, i as int, o));
                } else if a > p {
                    assert(old_order[a - 1] == order@[a]);
                    assert(old_order[b - 1] == order@[b]);
                }
            }
            assert forall|q: int| 0 <= q < order@.len() implies (#[trigger] order@[q] as int) < i + 1 by {
                if q < p {
                } else if q > p {
                    assert(old_order[q - 1] == order@[q]);
                }
            }
            assert(order@.no_duplicates()) by {
                assert forall|a: int, b: int| 0 <= a < b < order@.len() implies order@[a] != order@[b] by {
                    if a < p && b > p {
                        assert(old_order[b - 1] == order@[b]);
                    } else if a > p {
                        assert(old_order[a - 1] == order@[a]);
                        assert(old_order[b - 1] == order@[b]);
                    } else if a == p {
                        assert(old_order[b - 1] == order@[b]);
                    }
                }
            }
            assert forall|f: spec_fn(int) -> int| #[trigger] sum_by(order@, f) == sum_by(iota((i + 1) as nat), f) by {
                lemma_sum_insert(old_order, p as int, i, f);
                assert(iota((i + 1) as nat).drop_last() =~= iota(i as nat));
            }
        }
        i = i + 1;
    }
    order
}

/// The positions `0..crcs.len()` in storage order: by checksum, and between
/// equal checksums by position.
pub fn sort_by_crc(crcs: &Vec<u32>) -> (order: Vec<usize>)
    ensures
        is_permutation(order@, crcs@.len()),
        forall|a: int, b: int|
            0 <= a < b < order@.len() ==> crc_key_lt(crcs@, #[trigger] order@[a] as int, #[trigger] order@[b] as int),
        forall|f: spec_fn(int) -> int| #[trigger] sum_by(order@, f) == sum_by(iota(crcs@.len()), f),
{
    let mut order: Vec<usize> = Vec::new();
    let n = crcs.len();
    let mut i: usize = 0;
    while i < n
        invariant
            n == crcs@.len(),
            i <= n,
            is_permutation(order@, i as nat),
            forall|a: int, b: int|
                0 <= a < b < order@.len() ==> crc_key_lt(crcs@, #[trigger] order@[a] as int, #[trigger] order@[b] as int),
            forall|f: spec_fn(int) -> int| #[trigger] sum_by(order@, f) == sum_by(iota(i as nat), f),
        decreases n - i,
    {
        let key = crcs[i];
        let mut p: usize = 0;
        while p < order.len() && !(key < crcs[order[p]] || (key == crcs[order[p]] && i < order[p]))
            invariant
                n == crcs@.len(),
                i < n,
                key == crcs@[i as int],
                is_permutation(order@, i as nat),
                p <= order@.len(),
                forall|q: int| 0 <= q < p ==> crc_key_lt(crcs@, #[trigger] order@[q] as int, i as int),
            decreases order@.len() - p,
        {
            p = p + 1;
        }
        let ghost old_order = order@;
        order.insert(p, i);
        proof {
            assert forall|a: int, b: int| 0 <= a < b < order@.len() implies crc_key_lt(crcs@, #[trigger] order@[a] as int, #[trigger] order@[b] as int) by {
                if a < p && b > p {
                    assert(old_order[b - 1] == order@[b]);
                } else if a == p && b > p {
                    assert(old_order[b - 1] == order@[b]);
                    assert(old_order[p as int] == order@[p + 1]);
                } else if a > p {
                    assert(old_order[a - 1] == order@[a]);
                    assert(old_order[b - 1] == order@[b]);
                }
            }
            assert forall|q: int| 0 <= q < order@.len() implies (#[trigger] order@[q] as int) < i + 1 by {
                if q > p {
                    assert(old_order[q - 1] == order@[q]);
                }
            }
            assert(order@.no_duplicates()) by {
                assert forall|a: int, b: int| 0 <= a < b < order@.len() implies order@[a] != order@[b] by {
                    if a < p && b > p {
                        assert(old_order[b - 1] == order@[b]);
                    } else if a > p {
                        assert(old_order[a - 1] == order@[a]);
                        assert(old_order[b - 1] == order@[b]);
                    } else if a == p {
                        assert(old_order[b - 1] == order@[b]);
                    }
                }
            }
            assert forall|f: spec_fn(int) -> int| #[trigger] sum_by(order@, f) == sum_by(iota((i + 1) as nat), f) by {
                lemma_sum_insert(old_order, p as int, i, f);
                assert(iota((i + 1) as nat).drop_last() =~= iota(i as nat));
            }
        }
        i = i + 1;
    }
    order
}

} // verus!
