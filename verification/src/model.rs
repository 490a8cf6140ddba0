//! Mathematical model of the ring: hash positions, virtual-replica
//! placement, per-tag occurrence counts, erasure, and selection, all as
//! spec functions over sequences, together with the lemmas that relate
//! them.

use vstd::prelude::*;
use vstd::arithmetic::div_mod::lemma_fundamental_div_mod;
use vstd::arithmetic::div_mod::lemma_fundamental_div_mod_converse;

verus! {

/// Size of the ring: every position lies in `[0, RING_MOD)`.
pub const RING_MOD: u64 = 65535;

/// Number of virtual positions each tag is expanded into.
pub const REPLICAS: usize = 100;

/// A placement is the ordered ring index: a sequence of buckets, each a
/// pair of a position and the tags whose virtual nodes sit at exactly
/// that position, in insertion order.
pub type Placement = Seq<(int, Seq<Seq<char>>)>;

/// One step of the rolling polynomial hash, kept within the ring size.
pub open spec fn hash_step(h: int, c: char) -> int {
    (h * 31 + c as int) % (RING_MOD as int)
}

/// Hash of a whole string: the polynomial fold of its characters.
pub open spec fn hash_of(s: Seq<char>) -> int
    decreases s.len(),
{
    if s.len() == 0 {
        0
    } else {
        hash_step(hash_of(s.drop_last()), s.last())
    }
}

/// The character for one decimal digit.
pub open spec fn digit_char(d: nat) -> char {
    if d == 0 {
        '0'
    } else if d == 1 {
        '1'
    } else if d == 2 {
        '2'
    } else if d == 3 {
        '3'
    } else if d == 4 {
        '4'
    } else if d == 5 {
        '5'
    } else if d == 6 {
        '6'
    } else if d == 7 {
        '7'
    } else if d == 8 {
        '8'
    } else {
        '9'
    }
}

/// Decimal rendering of a replica index, most significant digit first.
pub open spec fn decimal_of(n: nat) -> Seq<char>
    decreases n,
{
    if n < 10 {
        seq![digit_char(n)]
    } else {
        decimal_of(n / 10).push(digit_char(n % 10))
    }
}

/// The string hashed for a tag's `i`-th virtual node: the tag followed by
/// the decimal replica index.
pub open spec fn replica_seed(tag: Seq<char>, i: nat) -> Seq<char> {
    tag + decimal_of(i)
}

/// The ring position of a tag's `i`-th virtual node.
pub open spec fn replica_position(tag: Seq<char>, i: nat) -> int {
    hash_of(replica_seed(tag, i))
}

/// Sorted strictly by position: positions ascend and never repeat.
pub open spec fn sorted_by_position(b: Placement) -> bool {
    forall|i: int, j: int|
        0 <= i < j < b.len() ==> #[trigger] b[i].0 < #[trigger] b[j].0
}

/// Every bucket holds at least one tag.
pub open spec fn buckets_nonempty(b: Placement) -> bool {
    forall|i: int| 0 <= i < b.len() ==> #[trigger] b[i].1.len() > 0
}

/// Every position lies on the ring.
pub open spec fn positions_in_range(b: Placement) -> bool {
    forall|i: int| 0 <= i < b.len() ==> 0 <= #[trigger] b[i].0 < RING_MOD as int
}

/// How often `tag` occurs in a single bucket.
pub open spec fn count_in(bucket: Seq<Seq<char>>, tag: Seq<char>) -> nat
    decreases bucket.len(),
{
    if bucket.len() == 0 {
        0
    } else {
        (if bucket[0] == tag {
            1nat
        } else {
            0nat
        }) + count_in(bucket.drop_first(), tag)
    }
}

/// How often `tag` occurs across all buckets.
pub open spec fn occurrences(b: Placement, tag: Seq<char>) -> nat
    decreases b.len(),
{
    if b.len() == 0 {
        0
    } else {
        count_in(b[0].1, tag) + occurrences(b.drop_first(), tag)
    }
}

/// Total number of virtual nodes stored across all buckets.
pub open spec fn total_nodes(b: Placement) -> nat
    decreases b.len(),
{
    if b.len() == 0 {
        0
    } else {
        b[0].1.len() + total_nodes(b.drop_first())
    }
}

/// Placement after one virtual node of `tag` lands at position `p`: the
/// tag is appended to the bucket at `p`, a fresh bucket being created in
/// sorted order when none exists.
pub open spec fn place_tag(b: Placement, p: int, tag: Seq<char>) -> Placement
    decreases b.len(),
{
    if b.len() == 0 {
        seq![(p, seq![tag])]
    } else if b[0].0 == p {
        seq![(b[0].0, b[0].1.push(tag))] + b.drop_first()
    } else if b[0].0 > p {
        seq![(p, seq![tag])] + b
    } else {
        seq![b[0]] + place_tag(b.drop_first(), p, tag)
    }
}

/// Placement after the first `n` virtual nodes of `tag` have landed.
pub open spec fn place_replicas(b: Placement, tag: Seq<char>, n: nat) -> Placement
    decreases n,
{
    if n == 0 {
        b
    } else {
        place_tag(
            place_replicas(b, tag, (n - 1) as nat),
            replica_position(tag, (n - 1) as nat),
            tag,
        )
    }
}

/// One bucket with every occurrence of `tag` removed.
pub open spec fn filter_out(bucket: Seq<Seq<char>>, tag: Seq<char>) -> Seq<Seq<char>>
    decreases bucket.len(),
{
    if bucket.len() == 0 {
        Seq::empty()
    } else {
        (if bucket[0] == tag {
            Seq::empty()
        } else {
            seq![bucket[0]]
        }) + filter_out(bucket.drop_first(), tag)
    }
}

/// Placement after every occurrence of `tag` is erased; buckets that
/// become empty are dropped.
pub open spec fn erase_tag(b: Placement, tag: Seq<char>) -> Placement
    decreases b.len(),
{
    if b.len() == 0 {
        Seq::empty()
    } else {
        let kept = filter_out(b[0].1, tag);
        (if kept.len() == 0 {
            Seq::<(int, Seq<Seq<char>>)>::empty()
        } else {
            seq![(b[0].0, kept)]
        }) + erase_tag(b.drop_first(), tag)
    }
}

/// Index of the first bucket whose position is at or after `index`;
/// `b.len()` when every position is below `index`.
pub open spec fn first_at_or_after(b: Placement, index: int) -> int
    decreases b.len(),
{
    if b.len() == 0 {
        0
    } else if b[0].0 >= index {
        0
    } else {
        1 + first_at_or_after(b.drop_first(), index)
    }
}

/// The bucket a request key selects: the first at or after the key, or
/// the smallest-position bucket when the key exceeds every stored
/// position (the ring wraps around).
pub open spec fn chosen_slot(b: Placement, index: int) -> int {
    if first_at_or_after(b, index) == b.len() {
        0
    } else {
        first_at_or_after(b, index)
    }
}

/// The tag a request key selects: within the chosen bucket, colliding
/// tags are disambiguated deterministically by `index mod bucket length`.
pub open spec fn selected_tag(b: Placement, index: int) -> Seq<char>
    recommends
        b.len() > 0,
        buckets_nonempty(b),
{
    let e = b[chosen_slot(b, index)];
    e.1[index % (e.1.len() as int)]
}

pub proof fn lemma_first_at_or_after_props(b: Placement, index: int)
    ensures
        0 <= first_at_or_after(b, index) <= b.len(),
        forall|m: int| 0 <= m < first_at_or_after(b, index) ==> (#[trigger] b[m]).0 < index,
        first_at_or_after(b, index) < b.len() ==> b[first_at_or_after(b, index)].0 >= index,
    decreases b.len(),
{
    if b.len() == 0 {
    } else if b[0].0 >= index {
    } else {
        let tail = b.drop_first();
        lemma_first_at_or_after_props(tail, index);
        let f = first_at_or_after(b, index);
        assert forall|m: int| 0 <= m < f implies (#[trigger] b[m]).0 < index by {
            if m > 0 {
                assert(tail[m - 1] == b[m]);
            }
        }
        if f < b.len() {
            assert(tail[f - 1] == b[f]);
        }
    }
}

pub proof fn lemma_first_at_or_after_unique(b: Placement, index: int, j: int)
    requires
        0 <= j <= b.len(),
        forall|m: int| 0 <= m < j ==> (#[trigger] b[m]).0 < index,
        j < b.len() ==> b[j].0 >= index,
    ensures
        first_at_or_after(b, index) == j,
    decreases b.len(),
{
    if b.len() == 0 {
    } else if b[0].0 >= index {
        assert(j == 0) by {
            if j > 0 {
                assert(b[0].0 < index);
            }
        }
    } else {
        let tail = b.drop_first();
        assert(j > 0) by {
            if j == 0 {
                assert(b[0].0 >= index);
            }
        }
        assert forall|m: int| 0 <= m < j - 1 implies (#[trigger] tail[m]).0 < index by {
            assert(tail[m] == b[m + 1]);
        }
        if j - 1 < tail.len() {
            assert(tail[j - 1] == b[j]);
        }
        lemma_first_at_or_after_unique(tail, index, j - 1);
    }
}

pub proof fn lemma_place_tag_shape(b: Placement, p: int, tag: Seq<char>, j: int)
    requires
        0 <= j <= b.len(),
        forall|m: int| 0 <= m < j ==> (#[trigger] b[m]).0 < p,
        j < b.len() ==> b[j].0 >= p,
    ensures
        j < b.len() && b[j].0 == p ==> place_tag(b, p, tag) =~= b.update(
            j,
            (b[j].0, b[j].1.push(tag)),
        ),
        (j == b.len() || b[j].0 > p) ==> place_tag(b, p, tag) =~= b.insert(j, (p, seq![tag])),
    decreases b.len(),
{
    if b.len() == 0 {
    } else if b[0].0 == p {
        assert(j == 0) by {
            if j > 0 {
                assert(b[0].0 < p);
            }
        }
    } else if b[0].0 > p {
        assert(j == 0) by {
            if j > 0 {
                assert(b[0].0 < p);
            }
        }
    } else {
        let tail = b.drop_first();
        assert(j > 0) by {
            if j == 0 {
                assert(b[0].0 >= p);
            }
        }
        assert forall|m: int| 0 <= m < j - 1 implies (#[trigger] tail[m]).0 < p by {
            assert(tail[m] == b[m + 1]);
        }
        if j - 1 < tail.len() {
            assert(tail[j - 1] == b[j]);
        }
        lemma_place_tag_shape(tail, p, tag, j - 1);
        if j < b.len() && b[j].0 == p {
            assert(place_tag(b, p, tag) =~= b.update(j, (b[j].0, b[j].1.push(tag))));
        } else {
            assert(place_tag(b, p, tag) =~= b.insert(j, (p, seq![tag])));
        }
    }
}

pub proof fn lemma_count_in_push(bucket: Seq<Seq<char>>, x: Seq<char>, t: Seq<char>)
    ensures
        count_in(bucket.push(x), t) == count_in(bucket, t) + (if x == t {
            1nat
        } else {
            0nat
        }),
    decreases bucket.len(),
{
    if bucket.len() == 0 {
        assert(bucket.push(x).drop_first() =~= Seq::<Seq<char>>::empty());
        assert(count_in(Seq::<Seq<char>>::empty(), t) == 0);
        assert(bucket.push(x)[0] == x);
    } else {
        assert(bucket.push(x).drop_first() =~= bucket.drop_first().push(x));
        lemma_count_in_push(bucket.drop_first(), x, t);
    }
}

pub proof fn lemma_place_tag_counts(b: Placement, p: int, tag: Seq<char>, t: Seq<char>)
    ensures
        occurrences(place_tag(b, p, tag), t) == occurrences(b, t) + (if t == tag {
            1nat
        } else {
            0nat
        }),
        total_nodes(place_tag(b, p, tag)) == total_nodes(b) + 1,
    decreases b.len(),
{
    let r = place_tag(b, p, tag);
    if b.len() == 0 {
        assert(r =~= seq![(p, seq![tag])]);
        assert(r.drop_first() =~= Seq::<(int, Seq<Seq<char>>)>::empty());
        assert(seq![tag].drop_first() =~= Seq::<Seq<char>>::empty());
        assert(count_in(Seq::<Seq<char>>::empty(), t) == 0);
        assert(count_in(seq![tag], t) == (if t == tag {
            1nat
        } else {
            0nat
        }));
        assert(occurrences(r, t) == count_in(r[0].1, t) + occurrences(r.drop_first(), t));
        assert(total_nodes(r) == r[0].1.len() + total_nodes(r.drop_first()));
    } else if b[0].0 == p {
        assert(r =~= seq![(b[0].0, b[0].1.push(tag))] + b.drop_first());
        assert(r[0].1 == b[0].1.push(tag));
        assert(r.drop_first() =~= b.drop_first());
        lemma_count_in_push(b[0].1, tag, t);
        assert(occurrences(r, t) == count_in(r[0].1, t) + occurrences(r.drop_first(), t));
        assert(total_nodes(r) == r[0].1.len() + total_nodes(r.drop_first()));
    } else if b[0].0 > p {
        assert(r =~= seq![(p, seq![tag])] + b);
        assert(r[0] == (p, seq![tag]));
        assert(r.drop_first() =~= b);
        assert(seq![tag].drop_first() =~= Seq::<Seq<char>>::empty());
        assert(count_in(Seq::<Seq<char>>::empty(), t) == 0);
        assert(count_in(seq![tag], t) == (if t == tag {
            1nat
        } else {
            0nat
        }));
        assert(occurrences(r, t) == count_in(r[0].1, t) + occurrences(r.drop_first(), t));
        assert(total_nodes(r) == r[0].1.len() + total_nodes(r.drop_first()));
    } else {
        assert(r =~= seq![b[0]] + place_tag(b.drop_first(), p, tag));
        assert(r[0] == b[0]);
        assert(r.drop_first() =~= place_tag(b.drop_first(), p, tag));
        lemma_place_tag_counts(b.drop_first(), p, tag, t);
        assert(occurrences(r, t) == count_in(r[0].1, t) + occurrences(r.drop_first(), t));
        assert(total_nodes(r) == r[0].1.len() + total_nodes(r.drop_first()));
    }
}

pub proof fn lemma_filter_out(bucket: Seq<Seq<char>>, tag: Seq<char>, t: Seq<char>)
    ensures
        count_in(filter_out(bucket, tag), tag) == 0,
        t != tag ==> count_in(filter_out(bucket, tag), t) == count_in(bucket, t),
        filter_out(bucket, tag).len() + count_in(bucket, tag) == bucket.len(),
    decreases bucket.len(),
{
    if bucket.len() == 0 {
    } else {
        lemma_filter_out(bucket.drop_first(), tag, t);
        let f = filter_out(bucket, tag);
        if bucket[0] == tag {
            assert(f =~= filter_out(bucket.drop_first(), tag));
        } else {
            assert(f[0] == bucket[0]);
            assert(f.drop_first() =~= filter_out(bucket.drop_first(), tag));
        }
    }
}

pub proof fn lemma_erase_tag_counts(b: Placement, tag: Seq<char>, t: Seq<char>)
    ensures
        occurrences(erase_tag(b, tag), tag) == 0,
        t != tag ==> occurrences(erase_tag(b, tag), t) == occurrences(b, t),
        total_nodes(erase_tag(b, tag)) + occurrences(b, tag) == total_nodes(b),
    decreases b.len(),
{
    if b.len() == 0 {
    } else {
        lemma_erase_tag_counts(b.drop_first(), tag, t);
        lemma_filter_out(b[0].1, tag, tag);
        lemma_filter_out(b[0].1, tag, t);
        let kept = filter_out(b[0].1, tag);
        let e = erase_tag(b, tag);
        if kept.len() == 0 {
            assert(e =~= erase_tag(b.drop_first(), tag));
        } else {
            assert(e[0] == (b[0].0, kept));
            assert(e.drop_first() =~= erase_tag(b.drop_first(), tag));
        }
    }
}

pub proof fn lemma_erase_tag_sorted(b: Placement, tag: Seq<char>)
    requires
        sorted_by_position(b),
        positions_in_range(b),
    ensures
        sorted_by_position(erase_tag(b, tag)),
        buckets_nonempty(erase_tag(b, tag)),
        positions_in_range(erase_tag(b, tag)),
        b.len() > 0 ==> forall|k: int|
            0 <= k < erase_tag(b, tag).len() ==> (#[trigger] erase_tag(b, tag)[k]).0 >= b[0].0,
    decreases b.len(),
{
    if b.len() == 0 {
    } else {
        let tail = b.drop_first();
        assert forall|m1: int, m2: int| 0 <= m1 < m2 < tail.len() implies (#[trigger] tail[m1]).0
            < (#[trigger] tail[m2]).0 by {
            assert(tail[m1] == b[m1 + 1]);
            assert(tail[m2] == b[m2 + 1]);
        }
        assert forall|m: int| 0 <= m < tail.len() implies 0 <= (#[trigger] tail[m]).0
            < RING_MOD as int by {
            assert(tail[m] == b[m + 1]);
        }
        lemma_erase_tag_sorted(tail, tag);
        let kept = filter_out(b[0].1, tag);
        let e = erase_tag(b, tag);
        let et = erase_tag(tail, tag);
        if kept.len() == 0 {
            assert(e =~= et);
            assert forall|k: int| 0 <= k < e.len() implies (#[trigger] e[k]).0 >= b[0].0 by {
                assert(tail.len() > 0);
                assert(et[k].0 >= tail[0].0);
                assert(tail[0] == b[1]);
            }
        } else {
            assert(e[0] == (b[0].0, kept));
            assert(e.drop_first() =~= et);
            assert forall|k: int| 0 <= k < e.len() implies (#[trigger] e[k]).0 >= b[0].0 by {
                if k > 0 {
                    assert(e[k] == et[k - 1]);
                    assert(tail.len() > 0);
                    assert(et[k - 1].0 >= tail[0].0);
                    assert(tail[0] == b[1]);
                }
            }
            assert forall|k1: int, k2: int| 0 <= k1 < k2 < e.len() implies (#[trigger] e[k1]).0
                < (#[trigger] e[k2]).0 by {
                if k1 > 0 {
                    assert(e[k1] == et[k1 - 1]);
                    assert(e[k2] == et[k2 - 1]);
                } else {
                    assert(e[k2] == et[k2 - 1]);
                    assert(tail.len() > 0);
                    assert(et[k2 - 1].0 >= tail[0].0);
                    assert(tail[0] == b[1]);
                }
            }
            assert forall|k: int| 0 <= k < e.len() implies (#[trigger] e[k]).1.len() > 0 by {
                if k > 0 {
                    assert(e[k] == et[k - 1]);
                }
            }
            assert forall|k: int| 0 <= k < e.len() implies 0 <= (#[trigger] e[k]).0
                < RING_MOD as int by {
                if k > 0 {
                    assert(e[k] == et[k - 1]);
                }
            }
        }
    }
}

pub proof fn lemma_count_in_positive(bucket: Seq<Seq<char>>, m: int)
    requires
        0 <= m < bucket.len(),
    ensures
        count_in(bucket, bucket[m]) > 0,
    decreases bucket.len(),
{
    if m == 0 {
    } else {
        lemma_count_in_positive(bucket.drop_first(), m - 1);
        assert(bucket.drop_first()[m - 1] == bucket[m]);
    }
}

pub proof fn lemma_occurrences_positive(b: Placement, k: int, m: int)
    requires
        0 <= k < b.len(),
        0 <= m < b[k].1.len(),
    ensures
        occurrences(b, b[k].1[m]) > 0,
    decreases b.len(),
{
    if k == 0 {
        lemma_count_in_positive(b[0].1, m);
    } else {
        assert(b.drop_first()[k - 1] == b[k]);
        lemma_occurrences_positive(b.drop_first(), k - 1, m);
    }
}

/// Law: selection finds the nearest successor. When some stored position
/// is at or after the request key, the chosen bucket is the first such
/// bucket in ascending order; when the key exceeds every stored position,
/// selection wraps around to the bucket with the smallest position.
pub proof fn lemma_chosen_slot_nearest(b: Placement, index: int)
    requires
        b.len() > 0,
    ensures
        (exists|j: int| 0 <= j < b.len() && (#[trigger] b[j]).0 >= index) ==> ({
            let k = chosen_slot(b, index);
            &&& 0 <= k < b.len()
            &&& b[k].0 >= index
            &&& forall|m: int| 0 <= m < k ==> (#[trigger] b[m]).0 < index
        }),
        (forall|j: int| 0 <= j < b.len() ==> (#[trigger] b[j]).0 < index) ==> chosen_slot(
            b,
            index,
        ) == 0,
{
    lemma_first_at_or_after_props(b, index);
    let f = first_at_or_after(b, index);
    if exists|j: int| 0 <= j < b.len() && (#[trigger] b[j]).0 >= index {
        let j = choose|j: int| 0 <= j < b.len() && (#[trigger] b[j]).0 >= index;
        assert(f < b.len()) by {
            if f == b.len() {
                assert(b[j].0 < index);
            }
        }
    }
}

/// Law: wraparound. For a non-empty ring whose stored positions all lie
/// below the request key, selection falls back to the bucket with the
/// smallest stored position — it does not fail.
pub proof fn lemma_selection_wraps(b: Placement, index: int)
    requires
        b.len() > 0,
        buckets_nonempty(b),
        forall|j: int| 0 <= j < b.len() ==> (#[trigger] b[j]).0 < index,
    ensures
        chosen_slot(b, index) == 0,
        selected_tag(b, index) == b[0].1[index % (b[0].1.len() as int)],
{
    lemma_chosen_slot_nearest(b, index);
}

/// Euclidean remainder of a negated non-negative number.
pub proof fn lemma_neg_mod(n: int, l: int)
    requires
        l > 0,
        n >= 0,
    ensures
        (-n) % l == (if n % l == 0 {
            0int
        } else {
            l - (n % l)
        }),
{
    lemma_fundamental_div_mod(n, l);
    let q: int = n / l;
    let r: int = n % l;
    if r == 0 {
        assert(-n == (-q) * l + 0) by (nonlinear_arith)
            requires
                n == l * q + r,
                r == 0,
        ;
        lemma_fundamental_div_mod_converse(-n, l, -q, 0);
    } else {
        assert(-n == (-q - 1) * l + (l - r)) by (nonlinear_arith)
            requires
                n == l * q + r,
        ;
        lemma_fundamental_div_mod_converse(-n, l, -q - 1, l - r);
    }
}

} // verus!
