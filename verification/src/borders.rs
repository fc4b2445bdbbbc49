//! The mathematical vocabulary of the matcher: prefixes of the pattern
//! occurring as suffixes of a scanned text, and borders of pattern
//! prefixes (prefixes that are also suffixes). The failure table and
//! both scanning loops are specified and proved in these terms.

use vstd::prelude::*;

verus! {

/// The first `len` characters of `p` occur as a suffix of `t[0 .. end]`,
/// that is, `p[0 .. len] == t[end - len .. end]`.
pub open spec fn prefix_suffix_at(p: Seq<char>, t: Seq<char>, end: int, len: int) -> bool {
    &&& 0 <= len
    &&& len <= end
    &&& end <= t.len()
    &&& len <= p.len()
    &&& forall|k: int| 0 <= k < len ==> p[k] == t[end - len + k]
}

/// `p[0 .. b]` is a border of the prefix `p[0 .. e]`: it is both a
/// prefix and a suffix of `p[0 .. e]`.
pub open spec fn is_border(p: Seq<char>, e: int, b: int) -> bool {
    prefix_suffix_at(p, p, e, b)
}

/// The whole pattern `p` occurs in `t` starting at offset `o`.
pub open spec fn match_at(p: Seq<char>, t: Seq<char>, o: int) -> bool {
    &&& 0 <= o
    &&& prefix_suffix_at(p, t, o + p.len(), p.len() as int)
}

/// `v + 1` is the length of the longest proper border of the pattern
/// prefix `p[0 ..= q]` (the prefix of length `q + 1`); `v == -1` says
/// that no nonempty proper border exists.
pub open spec fn table_entry_valid(p: Seq<char>, q: int, v: int) -> bool {
    &&& -1 <= v < q
    &&& is_border(p, q + 1, v + 1)
    &&& forall|b: int| v + 1 < b <= q ==> !(#[trigger] is_border(p, q + 1, b))
}

/// `table` is the failure table of `p`: one entry per pattern position,
/// each recording the longest proper border of the prefix ending there.
pub open spec fn table_valid(p: Seq<char>, table: Seq<i32>) -> bool {
    &&& table.len() == p.len()
    &&& forall|q: int| 0 <= q < p.len() ==> table_entry_valid(p, q, (#[trigger] table[q]) as int)
}

/// Offset `o` occurs somewhere in `offsets`.
pub open spec fn found(offsets: Seq<usize>, o: int) -> bool {
    exists|j: int| 0 <= j < offsets.len() && offsets[j] == o
}

/// A suffix occurrence of `p[0 .. len]` grows by one position when the
/// next pattern character matches the next text character.
pub proof fn lemma_psa_extend(p: Seq<char>, t: Seq<char>, end: int, len: int)
    requires
        prefix_suffix_at(p, t, end, len),
        len < p.len(),
        end < t.len(),
        p[len] == t[end],
    ensures
        prefix_suffix_at(p, t, end + 1, len + 1),
{
    assert forall|k: int| 0 <= k < len + 1 implies p[k] == t[end + 1 - (len + 1) + k] by {
        if k < len {
            assert(p[k] == t[end - len + k]);
        }
    }
}

/// A nonempty suffix occurrence of `p[0 .. len]` shrinks by one position,
/// and its last character matches the text character before `end`.
pub proof fn lemma_psa_shrink(p: Seq<char>, t: Seq<char>, end: int, len: int)
    requires
        prefix_suffix_at(p, t, end, len),
        1 <= len,
    ensures
        prefix_suffix_at(p, t, end - 1, len - 1),
        p[len - 1] == t[end - 1],
{
    assert(p[len - 1] == t[end - len + (len - 1)]);
    assert forall|k: int| 0 <= k < len - 1 implies p[k] == t[end - 1 - (len - 1) + k] by {
        assert(p[k] == t[end - len + k]);
    }
}

/// Two pattern prefixes that both occur as suffixes of `t[0 .. end]`:
/// the shorter one is a border of the longer one.
pub proof fn lemma_psa_psa_border(p: Seq<char>, t: Seq<char>, end: int, b1: int, b2: int)
    requires
        prefix_suffix_at(p, t, end, b1),
        prefix_suffix_at(p, t, end, b2),
        b1 <= b2,
    ensures
        is_border(p, b2, b1),
{
    assert forall|k: int| 0 <= k < b1 implies #[trigger] p[k] == p[b2 - b1 + k] by {
        assert(p[k] == t[end - b1 + k]);
        assert(p[b2 - b1 + k] == t[end - b2 + (b2 - b1 + k)]);
    }
}

/// A border of a pattern prefix that occurs as a suffix of `t[0 .. end]`
/// occurs there as a suffix as well.
pub proof fn lemma_border_psa(p: Seq<char>, t: Seq<char>, end: int, b: int, a: int)
    requires
        prefix_suffix_at(p, t, end, b),
        is_border(p, b, a),
    ensures
        prefix_suffix_at(p, t, end, a),
{
    assert forall|k: int| 0 <= k < a implies p[k] == t[end - a + k] by {
        assert(p[k] == p[b - a + k]);
        assert(p[b - a + k] == t[end - b + (b - a + k)]);
    }
}

} // verus!
