//! The failure-function builder and the single-pass matcher.

use crate::borders::{
    found, is_border, lemma_border_psa, lemma_psa_extend, lemma_psa_psa_border, lemma_psa_shrink,
    match_at, prefix_suffix_at, table_entry_valid, table_valid,
};
use vstd::prelude::*;

verus! {

/// Character of `s` at character position `i` (not a byte position).
/// The position must be in bounds.
pub fn char_at(s: &str, i: usize) -> (c: char)
    requires
        i < s@.len(),
    ensures
        c == s@[i as int],
{
    s.get_char(i)
}

/// Build the partial-match (failure) table of `word`.
///
/// Entry `q` holds the length of the longest proper prefix of
/// `word[0 ..= q]` that is also a suffix of it, minus one, so `-1`
/// stands for "no reusable prefix". The first entry is always `-1`,
/// every entry is strictly below its own position, and each entry is
/// the longest such border, which [`table_valid`] states precisely.
///
/// The length bound keeps every table entry within `i32`.
pub fn prefix_function(word: &str) -> (table: Vec<i32>)
    requires
        word@.len() <= 0x7fff_ffff,
    ensures
        table@.len() == word@.len(),
        table_valid(word@, table@),
        word@.len() > 0 ==> table@[0] == -1,
        forall|q: int| 0 <= q < table@.len() ==> (#[trigger] table@[q]) < q,
{
    let ghost p = word@;
    let m: usize = word.unicode_len();
    let mut table: Vec<i32> = Vec::new();
    if m == 0 {
        return table;
    }
    table.push(-1);
    let mut k: i32 = -1;
    let mut q: usize = 1;
    while q < m
        invariant
            p == word@,
            m == p.len(),
            1 <= q <= m,
            m <= 0x7fff_ffff,
            table@.len() == q,
            forall|j: int| 0 <= j < q ==> table_entry_valid(p, j, (#[trigger] table@[j]) as int),
            k as int == table@[q - 1],
        decreases m - q,
    {
        let c = word.get_char(q);
        proof {
            assert(table_entry_valid(p, q - 1, table@[q - 1] as int));
            // at entry, any border of p[0 ..= q] longer than k + 2 would shrink
            // to a proper border of p[0 .. q] longer than the longest one
            assert forall|b: int| k + 2 < b <= q implies !(#[trigger] is_border(p, q + 1, b)) by {
                if is_border(p, q + 1, b) {
                    lemma_psa_shrink(p, p, q + 1, b);
                    assert(is_border(p, q as int, b - 1));
                    assert(false);
                }
            }
        }
        while k >= 0 && char_at(word, (k + 1) as usize) != c
            invariant
                p == word@,
                m == p.len(),
                1 <= q < m,
                m <= 0x7fff_ffff,
                table@.len() == q,
                forall|j: int| 0 <= j < q ==> table_entry_valid(p, j, (#[trigger] table@[j]) as int),
                c == p[q as int],
                -1 <= k as int,
                k as int <= q - 2,
                is_border(p, q as int, k as int + 1),
                forall|b: int| k + 2 < b <= q ==> !(#[trigger] is_border(p, q + 1, b)),
            decreases k + 1,
        {
            let ghost k0: int = k as int;
            k = table[k as usize];
            proof {
                let kn: int = k as int;
                assert(table_entry_valid(p, k0, table@[k0] as int));
                // the shorter candidate is still a border of p[0 .. q]
                lemma_border_psa(p, p, q as int, k0 + 1, kn + 1);
                // every candidate between the new and the old one is ruled out
                assert forall|b: int| kn + 2 < b <= q implies !(#[trigger] is_border(p, q + 1, b)) by {
                    if is_border(p, q + 1, b) {
                        if b <= k0 + 2 {
                            lemma_psa_shrink(p, p, q + 1, b);
                            assert(is_border(p, q as int, b - 1));
                            assert(p[b - 1] == p[q as int]);
                            if b - 1 == k0 + 1 {
                                // the old candidate's next character mismatched
                                assert(false);
                            } else {
                                // a proper border of p[0 ..= k0] longer than its longest
                                lemma_psa_psa_border(p, p, q as int, b - 1, k0 + 1);
                                assert(is_border(p, k0 + 1, b - 1));
                                assert(false);
                            }
                        }
                    }
                }
            }
        }
        if char_at(word, (k + 1) as usize) == c {
            proof {
                // the border of p[0 .. q] extends by the matching character
                lemma_psa_extend(p, p, q as int, k as int + 1);
            }
            k = k + 1;
            proof {
                assert(table_entry_valid(p, q as int, k as int));
            }
        } else {
            proof {
                // the fallback ran dry: k is -1 and even the first pattern
                // character mismatches, so only the empty border remains
                assert(k == -1);
                assert forall|b: int| 0 < b <= q implies !(#[trigger] is_border(p, q + 1, b)) by {
                    if is_border(p, q + 1, b) {
                        if b == 1 {
                            lemma_psa_shrink(p, p, q + 1, 1);
                            assert(p[0] == p[q as int]);
                        }
                        assert(false);
                    }
                }
                assert(table_entry_valid(p, q as int, -1));
            }
        }
        table.push(k);
        q = q + 1;
    }
    proof {
        assert(table_entry_valid(p, 0, table@[0] as int));
        assert forall|j: int| 0 <= j < table@.len() implies (#[trigger] table@[j]) < j by {
            assert(table_entry_valid(p, j, table@[j] as int));
        }
    }
    table
}

/// Scan `body` once, left to right, and report the start offset of every
/// occurrence of `word`, overlapping ones included, in increasing order.
///
/// `table` must be the failure table of `word`, as [`prefix_function`]
/// builds it; this is the caller's responsibility and is stated as a
/// precondition rather than checked at run time. An empty pattern is
/// defined to match nowhere, and a text shorter than the pattern yields
/// no matches.
pub fn search(word: &str, table: &Vec<i32>, body: &str) -> (offsets: Vec<usize>)
    requires
        table_valid(word@, table@),
        word@.len() <= 0x7fff_ffff,
    ensures
        forall|j: int| 0 <= j < offsets@.len() ==> match_at(word@, body@, (#[trigger] offsets@[j]) as int),
        forall|o: int| match_at(word@, body@, o) && word@.len() > 0 ==> found(offsets@, o),
        forall|j1: int, j2: int| 0 <= j1 < j2 < offsets@.len() ==> offsets@[j1] < offsets@[j2],
        word@.len() == 0 ==> offsets@.len() == 0,
{
    let ghost p = word@;
    let ghost t = body@;
    let m: usize = word.unicode_len();
    let n: usize = body.unicode_len();
    let mut offsets: Vec<usize> = Vec::new();
    if m == 0 || n < m {
        return offsets;
    }
    let mut q: i32 = -1;
    let mut i: usize = 0;
    while i < n
        invariant
            p == word@,
            t == body@,
            m == p.len(),
            n == t.len(),
            1 <= m <= n,
            m <= 0x7fff_ffff,
            table_valid(p, table@),
            0 <= i <= n,
            -1 <= q as int,
            q as int <= m - 2,
            prefix_suffix_at(p, t, i as int, q as int + 1),
            forall|len: int| q as int + 1 < len < m ==> !(#[trigger] prefix_suffix_at(p, t, i as int, len)),
            forall|j: int| 0 <= j < offsets@.len() ==> match_at(p, t, (#[trigger] offsets@[j]) as int),
            forall|j: int| 0 <= j < offsets@.len() ==> (#[trigger] offsets@[j]) + m <= i,
            forall|o: int| match_at(p, t, o) && o + m <= i ==> found(offsets@, o),
            forall|j1: int, j2: int| 0 <= j1 < j2 < offsets@.len() ==> offsets@[j1] < offsets@[j2],
        decreases n - i,
    {
        let c = body.get_char(i);
        proof {
            // at entry, any suffix occurrence at i + 1 longer than q + 2 would
            // shrink to one at i longer than the longest there
            assert forall|len: int| q as int + 2 < len <= m implies !(#[trigger] prefix_suffix_at(
                p,
                t,
                i + 1,
                len,
            )) by {
                if prefix_suffix_at(p, t, i + 1, len) {
                    lemma_psa_shrink(p, t, i + 1, len);
                    assert(prefix_suffix_at(p, t, i as int, len - 1));
                    assert(false);
                }
            }
        }
        while q >= 0 && char_at(word, (q + 1) as usize) != c
            invariant
                p == word@,
                t == body@,
                m == p.len(),
                n == t.len(),
                1 <= m <= n,
                m <= 0x7fff_ffff,
                table_valid(p, table@),
                0 <= i < n,
                c == t[i as int],
                -1 <= q as int,
                q as int <= m - 2,
                prefix_suffix_at(p, t, i as int, q as int + 1),
                forall|len: int| q as int + 2 < len <= m ==> !(#[trigger] prefix_suffix_at(p, t, i + 1, len)),
            decreases q + 1,
        {
            let ghost q0: int = q as int;
            q = table[q as usize];
            proof {
                let qn: int = q as int;
                assert(table_entry_valid(p, q0, table@[q0] as int));
                // the shorter candidate is still a suffix occurrence at i
                lemma_border_psa(p, t, i as int, q0 + 1, qn + 1);
                // every candidate between the new and the old one is ruled out
                assert forall|len: int| qn + 2 < len <= m implies !(#[trigger] prefix_suffix_at(
                    p,
                    t,
                    i + 1,
                    len,
                )) by {
                    if prefix_suffix_at(p, t, i + 1, len) {
                        if len <= q0 + 2 {
                            lemma_psa_shrink(p, t, i + 1, len);
                            assert(prefix_suffix_at(p, t, i as int, len - 1));
                            assert(p[len - 1] == t[i as int]);
                            if len - 1 == q0 + 1 {
                                // the old candidate's next character mismatched
                                assert(false);
                            } else {
                                // a proper border of p[0 ..= q0] longer than its longest
                                lemma_psa_psa_border(p, t, i as int, len - 1, q0 + 1);
                                assert(is_border(p, q0 + 1, len - 1));
                                assert(false);
                            }
                        }
                    }
                }
            }
        }
        if char_at(word, (q + 1) as usize) == c {
            proof {
                // the current partial match extends by the matching character
                lemma_psa_extend(p, t, i as int, q as int + 1);
            }
            q = q + 1;
        } else {
            proof {
                // the fallback ran dry: q is -1 and even the first pattern
                // character mismatches, so nothing of the pattern is matched
                assert(q == -1);
                assert forall|len: int| 0 < len <= m implies !(#[trigger] prefix_suffix_at(
                    p,
                    t,
                    i + 1,
                    len,
                )) by {
                    if prefix_suffix_at(p, t, i + 1, len) {
                        if len == 1 {
                            lemma_psa_shrink(p, t, i + 1, 1);
                            assert(p[0] == t[i as int]);
                        }
                        assert(false);
                    }
                }
            }
        }
        proof {
            // on both branches, q + 1 is now the longest prefix of the
            // pattern that is a suffix of t[0 .. i + 1]
            assert(prefix_suffix_at(p, t, i + 1, q as int + 1));
            assert(forall|len: int| q as int + 1 < len <= m ==> !(#[trigger] prefix_suffix_at(
                p,
                t,
                i + 1,
                len,
            )));
        }
        if (q + 1) as usize == m {
            proof {
                assert(prefix_suffix_at(p, t, i + 1, m as int));
                assert(match_at(p, t, i + 1 - m));
            }
            let ghost old_offsets = offsets@;
            offsets.push(i - q as usize);
            proof {
                // every occurrence ending at or before i + 1 is recorded
                assert forall|o: int| match_at(p, t, o) && o + m <= i + 1 implies found(
                    offsets@,
                    o,
                ) by {
                    if o + m <= i {
                        let j: int = choose|j: int|
                            0 <= j < old_offsets.len() && old_offsets[j] == o;
                        assert(offsets@[j] == o);
                    } else {
                        assert(o == i + 1 - m);
                        assert(offsets@[offsets@.len() - 1] == o);
                    }
                }
                // the new offset is larger than every earlier one
                assert forall|j1: int, j2: int| 0 <= j1 < j2 < offsets@.len() implies offsets@[j1]
                    < offsets@[j2] by {
                    if j2 == offsets@.len() - 1 {
                        assert(old_offsets[j1] + m <= i);
                    }
                }
            }
            q = table[q as usize];
            proof {
                let qn: int = q as int;
                assert(table_entry_valid(p, m - 1, table@[m - 1] as int));
                // fall back to the longest proper border of the whole pattern
                lemma_border_psa(p, t, i + 1, m as int, qn + 1);
                assert forall|len: int| qn + 1 < len < m implies !(#[trigger] prefix_suffix_at(
                    p,
                    t,
                    i + 1,
                    len,
                )) by {
                    if prefix_suffix_at(p, t, i + 1, len) {
                        lemma_psa_psa_border(p, t, i + 1, len, m as int);
                        assert(is_border(p, m as int, len));
                        assert(false);
                    }
                }
            }
        } else {
            proof {
                // no occurrence ends at i + 1: the full pattern is not a
                // suffix of t[0 .. i + 1]
                assert forall|o: int| match_at(p, t, o) && o + m <= i + 1 implies found(
                    offsets@,
                    o,
                ) by {
                    if o + m == i + 1 {
                        assert(prefix_suffix_at(p, t, i + 1, m as int));
                        assert(false);
                    }
                }
            }
        }
        i = i + 1;
    }
    offsets
}

/// Find all occurrences of `word` in `body` with the Knuth-Morris-Pratt
/// algorithm: build the failure table of `word`, then scan `body` once.
///
/// The result holds the start offset of every occurrence, overlapping
/// ones included, each exactly once, in increasing order. An empty
/// pattern is defined to match nowhere.
pub fn string_match(word: &str, body: &str) -> (offsets: Vec<usize>)
    requires
        word@.len() <= 0x7fff_ffff,
    ensures
        forall|j: int| 0 <= j < offsets@.len() ==> match_at(word@, body@, (#[trigger] offsets@[j]) as int),
        forall|o: int| match_at(word@, body@, o) && word@.len() > 0 ==> found(offsets@, o),
        forall|j1: int, j2: int| 0 <= j1 < j2 < offsets@.len() ==> offsets@[j1] < offsets@[j2],
        word@.len() == 0 ==> offsets@.len() == 0,
{
    if word.unicode_len() == 0 || body.unicode_len() < word.unicode_len() {
        let offsets: Vec<usize> = Vec::new();
        return offsets;
    }
    let table = prefix_function(word);
    search(word, &table, body)
}

} // verus!
