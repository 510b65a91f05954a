//! Words as sequences of token ids, and the greedy merge pass over them.

use vstd::prelude::*;

verus! {

/// An ordered pair of token ids, `(left, right)`.
pub type Pair = (u32, u32);

/// The number of ids that stand for raw byte values.
pub const BYTE_IDS: u32 = 256;

/// `pair` stands at position `i` of `s`.
pub open spec fn occurs_at(s: Seq<u32>, pair: Pair, i: int) -> bool {
    0 <= i && i + 1 < s.len() && s[i] == pair.0 && s[i + 1] == pair.1
}

/// `pair` stands somewhere in `s`.
pub open spec fn occurs(s: Seq<u32>, pair: Pair) -> bool {
    exists|i: int| occurs_at(s, pair, i)
}

/// The greedy left-to-right pass: where `pair` stands at the front, it is
/// replaced by `new_id` and both its ids are consumed; otherwise the front id
/// is kept.
pub open spec fn merged(s: Seq<u32>, pair: Pair, new_id: u32) -> Seq<u32>
    decreases s.len(),
{
    if s.len() == 0 {
        Seq::empty()
    } else if occurs_at(s, pair, 0) {
        seq![new_id] + merged(s.subrange(2, s.len() as int), pair, new_id)
    } else {
        seq![s[0]] + merged(s.subrange(1, s.len() as int), pair, new_id)
    }
}

/// The token ids of a byte string: each byte is its own id.
pub open spec fn byte_ids(bytes: Seq<u8>) -> Seq<u32> {
    Seq::new(bytes.len(), |i: int| bytes[i] as u32)
}

/// A pass never lengthens a word.
pub proof fn lemma_merged_len(s: Seq<u32>, pair: Pair, new_id: u32)
    ensures
        merged(s, pair, new_id).len() <= s.len(),
    decreases s.len(),
{
    if s.len() == 0 {
    } else if occurs_at(s, pair, 0) {
        lemma_merged_len(s.subrange(2, s.len() as int), pair, new_id);
    } else {
        lemma_merged_len(s.subrange(1, s.len() as int), pair, new_id);
    }
}

/// A pass over a word in which the pair does not stand leaves the word as it is.
pub proof fn lemma_merged_without_occurrence(s: Seq<u32>, pair: Pair, new_id: u32)
    requires
        !occurs(s, pair),
    ensures
        merged(s, pair, new_id) == s,
    decreases s.len(),
{
    if s.len() == 0 {
        assert(merged(s, pair, new_id) =~= s);
    } else {
        assert(!occurs_at(s, pair, 0));
        let rest = s.subrange(1, s.len() as int);
        assert forall|i: int| !occurs_at(rest, pair, i) by {
            if occurs_at(rest, pair, i) {
                assert(occurs_at(s, pair, i + 1));
            }
        }
        lemma_merged_without_occurrence(rest, pair, new_id);
        assert(merged(s, pair, new_id) =~= s);
    }
}

/// A pass over a word in which the pair stands makes the word strictly shorter.
pub proof fn lemma_merged_shrinks(s: Seq<u32>, pair: Pair, new_id: u32)
    requires
        occurs(s, pair),
    ensures
        merged(s, pair, new_id).len() < s.len(),
    decreases s.len(),
{
    let k = choose|i: int| occurs_at(s, pair, i);
    if occurs_at(s, pair, 0) {
        lemma_merged_len(s.subrange(2, s.len() as int), pair, new_id);
    } else {
        let rest = s.subrange(1, s.len() as int);
        assert(occurs_at(rest, pair, k - 1));
        lemma_merged_shrinks(rest, pair, new_id);
    }
}

/// After a pass with an id that is neither side of the pair, the pair stands
/// nowhere in the word.
pub proof fn lemma_merged_removes_pair(s: Seq<u32>, pair: Pair, new_id: u32)
    requires
        new_id != pair.0,
        new_id != pair.1,
    ensures
        !occurs(merged(s, pair, new_id), pair),
        s.len() > 0 ==> merged(s, pair, new_id).len() > 0 && (merged(s, pair, new_id)[0] == new_id
            || (merged(s, pair, new_id)[0] == s[0] && !occurs_at(s, pair, 0))),
    decreases s.len(),
{
    let m = merged(s, pair, new_id);
    if s.len() == 0 {
    } else if occurs_at(s, pair, 0) {
        let rest = s.subrange(2, s.len() as int);
        lemma_merged_removes_pair(rest, pair, new_id);
        let mr = merged(rest, pair, new_id);
        assert forall|i: int| !occurs_at(m, pair, i) by {
            if occurs_at(m, pair, i) {
                if i > 0 {
                    assert(occurs_at(mr, pair, i - 1));
                }
            }
        }
    } else {
        let rest = s.subrange(1, s.len() as int);
        lemma_merged_removes_pair(rest, pair, new_id);
        let mr = merged(rest, pair, new_id);
        assert forall|i: int| !occurs_at(m, pair, i) by {
            if occurs_at(m, pair, i) {
                if i > 0 {
                    assert(occurs_at(mr, pair, i - 1));
                } else {
                    assert(m[1] == mr[0]);
                    assert(rest[0] == s[1]);
                }
            }
        }
    }
}

/// Every id of `s` is below `bound`.
pub open spec fn ids_below(s: Seq<u32>, bound: int) -> bool {
    forall|i: int| 0 <= i < s.len() ==> s[i] < bound
}

/// A pass brings in no id but `new_id`.
pub proof fn lemma_merged_ids_below(s: Seq<u32>, pair: Pair, new_id: u32, bound: int)
    requires
        ids_below(s, bound),
        new_id < bound,
    ensures
        ids_below(merged(s, pair, new_id), bound),
    decreases s.len(),
{
    let m = merged(s, pair, new_id);
    if s.len() == 0 {
    } else if occurs_at(s, pair, 0) {
        let rest = s.subrange(2, s.len() as int);
        assert forall|i: int| 0 <= i < rest.len() implies rest[i] < bound by {
            assert(rest[i] == s[i + 2]);
        }
        lemma_merged_ids_below(rest, pair, new_id, bound);
        assert forall|i: int| 0 <= i < m.len() implies m[i] < bound by {
            if i > 0 {
                assert(m[i] == merged(rest, pair, new_id)[i - 1]);
            }
        }
    } else {
        let rest = s.subrange(1, s.len() as int);
        assert forall|i: int| 0 <= i < rest.len() implies rest[i] < bound by {
            assert(rest[i] == s[i + 1]);
        }
        lemma_merged_ids_below(rest, pair, new_id, bound);
        assert forall|i: int| 0 <= i < m.len() implies m[i] < bound by {
            if i > 0 {
                assert(m[i] == merged(rest, pair, new_id)[i - 1]);
            }
        }
    }
}

/// A pass for one pair does not bring about another pair that stood nowhere
/// before, as long as the new id is neither side of that other pair.
pub proof fn lemma_merged_keeps_absent(s: Seq<u32>, pair: Pair, new_id: u32, other: Pair)
    requires
        !occurs(s, other),
        new_id != other.0,
        new_id != other.1,
    ensures
        !occurs(merged(s, pair, new_id), other),
        s.len() > 0 ==> merged(s, pair, new_id).len() > 0 && (merged(s, pair, new_id)[0] == new_id
            || merged(s, pair, new_id)[0] == s[0]),
    decreases s.len(),
{
    let m = merged(s, pair, new_id);
    if s.len() == 0 {
    } else {
        let skip: int = if occurs_at(s, pair, 0) { 2 } else { 1 };
        let rest = s.subrange(skip, s.len() as int);
        assert forall|i: int| !occurs_at(rest, other, i) by {
            if occurs_at(rest, other, i) {
                assert(occurs_at(s, other, i + skip));
            }
        }
        lemma_merged_keeps_absent(rest, pair, new_id, other);
        let mr = merged(rest, pair, new_id);
        assert forall|i: int| !occurs_at(m, other, i) by {
            if occurs_at(m, other, i) {
                if i > 0 {
                    assert(occurs_at(mr, other, i - 1));
                } else if skip == 1 {
                    assert(m[1] == mr[0]);
                    assert(rest[0] == s[1]);
                    assert(occurs_at(s, other, 0));
                }
            }
        }
    }
}

/// One corpus entry: an ordered sequence of token ids.
#[derive(Clone, Debug, PartialEq, Eq)]
pub struct Word {
    pub ids: Vec<u32>,
}

impl View for Word {
    type V = Seq<u32>;

    open spec fn view(&self) -> Seq<u32> {
        self.ids@
    }
}

/// The greedy pass as a function from ids to ids.
pub fn merge_ids(ids: &Vec<u32>, pair: Pair, new_id: u32) -> (out: Vec<u32>)
    ensures
        out@ == merged(ids@, pair, new_id),
        out@.len() <= ids@.len(),
        occurs(ids@, pair) ==> out@.len() < ids@.len(),
        !occurs(ids@, pair) ==> out@ == ids@,
{
    let n: usize = ids.len();
    let mut out: Vec<u32> = Vec::with_capacity(n);
    let mut i: usize = 0;
    proof {
        assert(ids@.subrange(0, n as int) =~= ids@);
    }
    while i < n
        invariant
            n == ids@.len(),
            i <= n,
            merged(ids@, pair, new_id) == out@ + merged(ids@.subrange(i as int, n as int), pair, new_id),
        decreases n - i,
    {
        let ghost tail = ids@.subrange(i as int, n as int);
        let ghost before = out@;
        if i + 1 < n && ids[i] == pair.0 && ids[i + 1] == pair.1 {
            out.push(new_id);
            proof {
                assert(occurs_at(tail, pair, 0));
                assert(tail.subrange(2, tail.len() as int) =~= ids@.subrange(i + 2, n as int));
                assert(before + (seq![new_id] + merged(ids@.subrange(i + 2, n as int), pair, new_id))
                    =~= out@ + merged(ids@.subrange(i + 2, n as int), pair, new_id));
            }
            i += 2;
        } else {
            out.push(ids[i]);
            proof {
                assert(!occurs_at(tail, pair, 0));
                assert(tail.subrange(1, tail.len() as int) =~= ids@.subrange(i + 1, n as int));
                assert(before + (seq![tail[0]] + merged(ids@.subrange(i + 1, n as int), pair, new_id))
                    =~= out@ + merged(ids@.subrange(i + 1, n as int), pair, new_id));
            }
            i += 1;
        }
    }
    proof {
        assert(ids@.subrange(n as int, n as int) =~= Seq::<u32>::empty());
        assert(out@ + Seq::<u32>::empty() =~= out@);
        lemma_merged_len(ids@, pair, new_id);
        if occurs(ids@, pair) {
            lemma_merged_shrinks(ids@, pair, new_id);
        } else {
            lemma_merged_without_occurrence(ids@, pair, new_id);
        }
    }
    out
}

impl Word {
    /// The word of a byte string.
    pub fn from_bytes(bytes: &[u8]) -> (w: Word)
        ensures
            w@ == byte_ids(bytes@),
    {
        let mut ids: Vec<u32> = Vec::with_capacity(bytes.len());
        let mut i: usize = 0;
        while i < bytes.len()
            invariant
                i <= bytes@.len(),
                ids@.len() == i,
                forall|k: int| 0 <= k < i ==> ids@[k] == bytes@[k] as u32,
            decreases bytes@.len() - i,
        {
            ids.push(bytes[i] as u32);
            i += 1;
        }
        proof {
            assert(ids@ =~= byte_ids(bytes@));
        }
        Word { ids }
    }

    /// The adjacent pairs of the word, from left to right.
    pub fn pairs(&self) -> (r: Vec<Pair>)
        ensures
            r@.len() == (if self@.len() >= 2 { self@.len() - 1 } else { 0 }),
            forall|i: int| 0 <= i < r@.len() ==> r@[i] == (self@[i], self@[i + 1]),
    {
        let n: usize = self.ids.len();
        let mut r: Vec<Pair> = Vec::new();
        if n < 2 {
            return r;
        }
        let mut i: usize = 0;
        while i + 1 < n
            invariant
                n == self@.len(),
                n >= 2,
                i + 1 <= n,
                r@.len() == i,
                forall|k: int| 0 <= k < i ==> r@[k] == (self@[k], self@[k + 1]),
            decreases n - i,
        {
            r.push((self.ids[i], self.ids[i + 1]));
            i += 1;
        }
        r
    }

    /// Replaces every non-overlapping occurrence of `pair`, found greedily
    /// from the left, by `new_id`.
    pub fn merge_pair(&mut self, pair: Pair, new_id: u32)
        ensures
            final(self)@ == merged(old(self)@, pair, new_id),
            final(self)@.len() <= old(self)@.len(),
            occurs(old(self)@, pair) ==> final(self)@.len() < old(self)@.len(),
            !occurs(old(self)@, pair) ==> final(self)@ == old(self)@,
    {
        let out = merge_ids(&self.ids, pair, new_id);
        self.ids = out;
    }
}

} // verus!
