//! The consistent-hashing ring: a sorted index of hash positions to
//! buckets of colliding tags, together with an owning table from tag to
//! value. `add_item` expands a tag into its virtual positions,
//! `remove_item` erases them, and `select` maps an arbitrary request key
//! to the owning value.

use vstd::prelude::*;
use vstd::string::StrSliceExecFns;
use vstd::string::StringExecFns;

use crate::model::buckets_nonempty;
use crate::model::chosen_slot;
use crate::model::decimal_of;
use crate::model::digit_char;
use crate::model::erase_tag;
use crate::model::filter_out;
use crate::model::hash_of;
use crate::model::lemma_erase_tag_counts;
use crate::model::lemma_erase_tag_sorted;
use crate::model::lemma_first_at_or_after_unique;
use crate::model::lemma_neg_mod;
use crate::model::lemma_occurrences_positive;
use crate::model::lemma_place_tag_counts;
use crate::model::lemma_place_tag_shape;
use crate::model::occurrences;
use crate::model::place_replicas;
use crate::model::place_tag;
use crate::model::positions_in_range;
use crate::model::replica_position;
use crate::model::replica_seed;
use crate::model::selected_tag;
use crate::model::sorted_by_position;
use crate::model::total_nodes;
use crate::model::Placement;
use crate::model::REPLICAS;
use crate::model::RING_MOD;

verus! {

/// One bucket of the ring index: a position and the tags whose virtual
/// nodes collide at exactly that position, in insertion order.
pub struct RingEntry {
    pub position: u64,
    pub tags: Vec<String>,
}

/// The errors the ring reports. Removing an unknown tag is not an error.
#[derive(Debug, PartialEq, Eq)]
pub enum RingError {
    DuplicateTag,
}

/// The consistent-hashing ring. Its ownership policy is fixed by the
/// instantiation: with a plain value type it owns each value directly,
/// keyed by its unique tag, and exposes only borrowed access; with a
/// reference (or other handle) type it holds only non-owning handles to
/// values that live elsewhere, scoped to their lifetime.
pub struct Ring<T> {
    entries: Vec<RingEntry>,
    items: Vec<(String, T)>,
}

pub open spec fn entry_view(e: RingEntry) -> (int, Seq<Seq<char>>) {
    (e.position as int, e.tags.deep_view())
}

pub open spec fn entries_view(es: Seq<RingEntry>) -> Placement {
    es.map_values(|e: RingEntry| entry_view(e))
}

/// The owning table as a map, later pairs shadowing earlier ones; under
/// `distinct_tags` there is nothing to shadow.
pub open spec fn items_map<T>(items: Seq<(String, T)>) -> Map<Seq<char>, T>
    decreases items.len(),
{
    if items.len() == 0 {
        Map::empty()
    } else {
        items_map(items.drop_last()).insert(items.last().0@, items.last().1)
    }
}

pub open spec fn distinct_tags<T>(items: Seq<(String, T)>) -> bool {
    forall|i: int, j: int|
        0 <= i < j < items.len() ==> (#[trigger] items[i]).0@ != (#[trigger] items[j]).0@
}

pub proof fn lemma_items_map_present<T>(items: Seq<(String, T)>, l: int)
    requires
        distinct_tags(items),
        0 <= l < items.len(),
    ensures
        items_map(items).contains_key(items[l].0@),
        items_map(items)[items[l].0@] == items[l].1,
    decreases items.len(),
{
    if l == items.len() - 1 {
        assert(items.last() == items[l]);
    } else {
        let prefix = items.drop_last();
        assert forall|i: int, j: int| 0 <= i < j < prefix.len() implies (#[trigger] prefix[i]).0@
            != (#[trigger] prefix[j]).0@ by {
            assert(prefix[i] == items[i]);
            assert(prefix[j] == items[j]);
        }
        assert(prefix[l] == items[l]);
        lemma_items_map_present(prefix, l);
        assert(items.last() == items[items.len() - 1]);
        assert(items[l].0@ != items[items.len() - 1].0@);
    }
}

pub proof fn lemma_items_map_absent<T>(items: Seq<(String, T)>, t: Seq<char>)
    requires
        forall|l: int| 0 <= l < items.len() ==> (#[trigger] items[l]).0@ != t,
    ensures
        !items_map(items).contains_key(t),
    decreases items.len(),
{
    if items.len() == 0 {
    } else {
        let prefix = items.drop_last();
        assert forall|l: int| 0 <= l < prefix.len() implies (#[trigger] prefix[l]).0@ != t by {
            assert(prefix[l] == items[l]);
        }
        lemma_items_map_absent(prefix, t);
        assert(items.last() == items[items.len() - 1]);
    }
}

pub proof fn lemma_items_map_remove<T>(items: Seq<(String, T)>, idx: int, t: Seq<char>)
    requires
        distinct_tags(items),
        0 <= idx < items.len(),
        items[idx].0@ == t,
    ensures
        items_map(items.remove(idx)) =~= items_map(items).remove(t),
    decreases items.len(),
{
    let prefix = items.drop_last();
    assert forall|i: int, j: int| 0 <= i < j < prefix.len() implies (#[trigger] prefix[i]).0@
        != (#[trigger] prefix[j]).0@ by {
        assert(prefix[i] == items[i]);
        assert(prefix[j] == items[j]);
    }
    if idx == items.len() - 1 {
        assert(items.remove(idx) =~= prefix);
        assert(items.last() == items[idx]);
        assert forall|l: int| 0 <= l < prefix.len() implies (#[trigger] prefix[l]).0@ != t by {
            assert(prefix[l] == items[l]);
        }
        lemma_items_map_absent(prefix, t);
        assert(items_map(items) == items_map(prefix).insert(t, items[idx].1));
        assert(items_map(items).remove(t) =~= items_map(prefix));
    } else {
        assert(prefix[idx] == items[idx]);
        lemma_items_map_remove(prefix, idx, t);
        assert(items.remove(idx).drop_last() =~= prefix.remove(idx));
        assert(items.remove(idx).last() == items.last());
        assert(items.last() == items[items.len() - 1]);
        assert(items[items.len() - 1].0@ != t);
        assert(items_map(items.remove(idx)) == items_map(prefix.remove(idx)).insert(
            items.last().0@,
            items.last().1,
        ));
        assert(items_map(prefix).remove(t).insert(items.last().0@, items.last().1)
            =~= items_map(prefix).insert(items.last().0@, items.last().1).remove(t));
    }
}

impl<T> Ring<T> {
    /// The ring index: positions in ascending order, each with the tags
    /// placed at exactly that position, in insertion order.
    pub closed spec fn buckets(self) -> Placement {
        entries_view(self.entries@)
    }

    /// The owning table: the value stored under each registered tag.
    pub closed spec fn table(self) -> Map<Seq<char>, T> {
        items_map(self.items@)
    }

    /// Well-formedness: the index is strictly sorted by position, every
    /// position lies on the ring, no bucket is empty, tags in the table
    /// are unique, every tag appearing in a bucket is owned by the table,
    /// and every owned tag occupies exactly `REPLICAS` virtual positions.
    pub closed spec fn wf(self) -> bool {
        &&& sorted_by_position(self.buckets())
        &&& positions_in_range(self.buckets())
        &&& buckets_nonempty(self.buckets())
        &&& distinct_tags(self.items@)
        &&& forall|t: Seq<char>|
            #[trigger] occurrences(self.buckets(), t) > 0 ==> self.table().contains_key(t)
        &&& forall|t: Seq<char>|
            self.table().contains_key(t) ==> #[trigger] occurrences(self.buckets(), t)
                == REPLICAS as nat
    }
}

impl<T> Default for Ring<T> {
    /// An empty ring: no buckets, no owned values.
    fn default() -> (r: Self)
        ensures
            r.wf(),
            r.buckets() == Seq::<(int, Seq<Seq<char>>)>::empty(),
            r.table() == Map::<Seq<char>, T>::empty(),
    {
        let r = Ring { entries: Vec::new(), items: Vec::new() };
        proof {
            assert(r.buckets() =~= Seq::<(int, Seq<Seq<char>>)>::empty());
            assert(r.table() =~= Map::<Seq<char>, T>::empty());
        }
        r
    }
}

/// The ring position of a string: its polynomial hash, reduced to
/// `[0, RING_MOD)`.
fn hash_index(content: &str) -> (r: u64)
    ensures
        r as int == hash_of(content@),
        r < RING_MOD,
{
    let n: usize = content.unicode_len();
    let mut h: u64 = 0;
    let mut i: usize = 0;
    while i < n
        invariant
            i <= n,
            n == content@.len(),
            h < RING_MOD,
            h as int == hash_of(content@.take(i as int)),
        decreases n - i,
    {
        let c: char = content.get_char(i);
        let cv: u64 = (c as u32) as u64;
        h = (h * 31 + cv) % RING_MOD;
        proof {
            assert(content@.take(i + 1 as int).drop_last() =~= content@.take(i as int));
            assert(content@.take(i + 1 as int).last() == content@[i as int]);
        }
        i = i + 1;
    }
    proof {
        assert(content@.take(n as int) =~= content@);
    }
    h
}

/// The single-character string for one decimal digit.
fn digit_str(d: usize) -> (r: &'static str)
    requires
        d < 10,
    ensures
        r@ == seq![digit_char(d as nat)],
{
    if d == 0 {
        proof {
            reveal_strlit("0");
            assert("0"@ =~= seq![digit_char(0)]);
        }
        "0"
    } else if d == 1 {
        proof {
            reveal_strlit("1");
            assert("1"@ =~= seq![digit_char(1)]);
        }
        "1"
    } else if d == 2 {
        proof {
            reveal_strlit("2");
            assert("2"@ =~= seq![digit_char(2)]);
        }
        "2"
    } else if d == 3 {
        proof {
            reveal_strlit("3");
            assert("3"@ =~= seq![digit_char(3)]);
        }
        "3"
    } else if d == 4 {
        proof {
            reveal_strlit("4");
            assert("4"@ =~= seq![digit_char(4)]);
        }
        "4"
    } else if d == 5 {
        proof {
            reveal_strlit("5");
            assert("5"@ =~= seq![digit_char(5)]);
        }
        "5"
    } else if d == 6 {
        proof {
            reveal_strlit("6");
            assert("6"@ =~= seq![digit_char(6)]);
        }
        "6"
    } else if d == 7 {
        proof {
            reveal_strlit("7");
            assert("7"@ =~= seq![digit_char(7)]);
        }
        "7"
    } else if d == 8 {
        proof {
            reveal_strlit("8");
            assert("8"@ =~= seq![digit_char(8)]);
        }
        "8"
    } else {
        proof {
            reveal_strlit("9");
            assert("9"@ =~= seq![digit_char(9)]);
        }
        "9"
    }
}

/// The string hashed for a tag's `i`-th virtual node: the tag followed
/// by the decimal replica index.
fn replica_content(tag: &String, i: usize) -> (r: String)
    requires
        i < REPLICAS,
    ensures
        r@ == replica_seed(tag@, i as nat),
{
    let mut content: String = tag.clone();
    if i < 10 {
        content.append(digit_str(i));
        proof {
            assert(decimal_of(i as nat) == seq![digit_char(i as nat)]);
            assert(content@ =~= tag@ + decimal_of(i as nat));
        }
    } else {
        let hi: usize = i / 10;
        let lo: usize = i % 10;
        content.append(digit_str(hi));
        content.append(digit_str(lo));
        proof {
            assert(decimal_of((i / 10) as nat) == seq![digit_char((i / 10) as nat)]);
            assert(decimal_of(i as nat) == decimal_of((i / 10) as nat).push(
                digit_char((i % 10) as nat),
            ));
            assert(content@ =~= tag@ + decimal_of(i as nat));
        }
    }
    content
}

proof fn lemma_wf_insert_slot(b: Placement, j: int, p: int, tag: Seq<char>)
    requires
        sorted_by_position(b),
        positions_in_range(b),
        buckets_nonempty(b),
        0 <= j <= b.len(),
        forall|m: int| 0 <= m < j ==> (#[trigger] b[m]).0 < p,
        j < b.len() ==> b[j].0 > p,
        0 <= p < RING_MOD as int,
    ensures
        sorted_by_position(b.insert(j, (p, seq![tag]))),
        positions_in_range(b.insert(j, (p, seq![tag]))),
        buckets_nonempty(b.insert(j, (p, seq![tag]))),
{
    let nb = b.insert(j, (p, seq![tag]));
    assert forall|m1: int, m2: int| 0 <= m1 < m2 < nb.len() implies (#[trigger] nb[m1]).0
        < (#[trigger] nb[m2]).0 by {
        if m1 < j {
            assert(nb[m1] == b[m1]);
        } else if m1 > j {
            assert(nb[m1] == b[m1 - 1]);
        }
        if m2 < j {
            assert(nb[m2] == b[m2]);
        } else if m2 > j {
            assert(nb[m2] == b[m2 - 1]);
        }
    }
    assert forall|m: int| 0 <= m < nb.len() implies 0 <= (#[trigger] nb[m]).0 < RING_MOD as int by {
        if m < j {
            assert(nb[m] == b[m]);
        } else if m > j {
            assert(nb[m] == b[m - 1]);
        }
    }
    assert forall|m: int| 0 <= m < nb.len() implies (#[trigger] nb[m]).1.len() > 0 by {
        if m < j {
            assert(nb[m] == b[m]);
        } else if m > j {
            assert(nb[m] == b[m - 1]);
        }
    }
}

proof fn lemma_wf_update_slot(b: Placement, j: int, tag: Seq<char>)
    requires
        sorted_by_position(b),
        positions_in_range(b),
        buckets_nonempty(b),
        0 <= j < b.len(),
    ensures
        sorted_by_position(b.update(j, (b[j].0, b[j].1.push(tag)))),
        positions_in_range(b.update(j, (b[j].0, b[j].1.push(tag)))),
        buckets_nonempty(b.update(j, (b[j].0, b[j].1.push(tag)))),
{
    let nb = b.update(j, (b[j].0, b[j].1.push(tag)));
    assert forall|m1: int, m2: int| 0 <= m1 < m2 < nb.len() implies (#[trigger] nb[m1]).0
        < (#[trigger] nb[m2]).0 by {
        assert(nb[m1].0 == b[m1].0);
        assert(nb[m2].0 == b[m2].0);
    }
    assert forall|m: int| 0 <= m < nb.len() implies 0 <= (#[trigger] nb[m]).0 < RING_MOD as int by {
        assert(nb[m].0 == b[m].0);
    }
    assert forall|m: int| 0 <= m < nb.len() implies (#[trigger] nb[m]).1.len() > 0 by {
        if m != j {
            assert(nb[m] == b[m]);
        }
    }
}

impl<T> Ring<T> {
    /// Registers `item` under `tag`. The tag is expanded into `REPLICAS`
    /// virtual positions, each appended to its bucket in the sorted
    /// index, and the value is stored in the owning table. A tag that is
    /// already registered is rejected unchanged, so after a successful
    /// call the tag occupies exactly `REPLICAS` virtual positions, the
    /// total node count grows by exactly `REPLICAS`, and no other tag's
    /// occurrences move.
    #[verifier::rlimit(60)]
    pub fn add_item(&mut self, item: T, tag: String) -> (r: Result<(), RingError>)
        requires
            old(self).wf(),
        ensures
            final(self).wf(),
            match r {
                Result::Err(e) => {
                    &&& e == RingError::DuplicateTag
                    &&& old(self).table().contains_key(tag@)
                    &&& *final(self) == *old(self)
                },
                Result::Ok(()) => {
                    &&& !old(self).table().contains_key(tag@)
                    &&& final(self).table() == old(self).table().insert(tag@, item)
                    &&& final(self).buckets() == place_replicas(
                        old(self).buckets(),
                        tag@,
                        REPLICAS as nat,
                    )
                    &&& occurrences(final(self).buckets(), tag@) == REPLICAS as nat
                    &&& forall|t: Seq<char>|
                        t != tag@ ==> #[trigger] occurrences(final(self).buckets(), t)
                            == occurrences(old(self).buckets(), t)
                    &&& total_nodes(final(self).buckets()) == total_nodes(old(self).buckets())
                        + REPLICAS as nat
                },
            },
    {
        let n_items: usize = self.items.len();
        let mut l: usize = 0;
        while l < n_items
            invariant
                l <= n_items,
                n_items == self.items.len(),
                self.wf(),
                *self == *old(self),
                forall|m: int| 0 <= m < l ==> (#[trigger] self.items@[m]).0@ != tag@,
            decreases n_items - l,
        {
            if self.items[l].0 == tag {
                proof {
                    lemma_items_map_present(self.items@, l as int);
                }
                return Err(RingError::DuplicateTag);
            }
            l = l + 1;
        }
        proof {
            lemma_items_map_absent(self.items@, tag@);
        }
        self.items.push((tag.clone(), item));
        proof {
            assert(self.items@.drop_last() =~= old(self).items@);
            assert(self.table() == old(self).table().insert(tag@, item));
            assert forall|i: int, j: int| 0 <= i < j < self.items@.len() implies (#[trigger] self
                .items@[i]).0@ != (#[trigger] self.items@[j]).0@ by {
                if j < self.items@.len() - 1 {
                    assert(self.items@[i] == old(self).items@[i]);
                    assert(self.items@[j] == old(self).items@[j]);
                } else {
                    assert(self.items@[i] == old(self).items@[i]);
                    assert(self.items@[j].0@ == tag@);
                }
            }
            assert(self.buckets() == old(self).buckets());
        }
        let ghost b0: Placement = self.buckets();
        let ghost items1: Seq<(String, T)> = self.items@;
        let mut i: usize = 0;
        while i < REPLICAS
            invariant
                i <= REPLICAS,
                self.items@ == items1,
                self.buckets() == place_replicas(b0, tag@, i as nat),
                sorted_by_position(self.buckets()),
                positions_in_range(self.buckets()),
                buckets_nonempty(self.buckets()),
                occurrences(self.buckets(), tag@) == i as nat,
                forall|t: Seq<char>|
                    t != tag@ ==> #[trigger] occurrences(self.buckets(), t) == occurrences(b0, t),
                total_nodes(self.buckets()) == total_nodes(b0) + i as nat,
            decreases REPLICAS - i,
        {
            let content: String = replica_content(&tag, i);
            let k: u64 = hash_index(content.as_str());
            proof {
                assert(k as int == replica_position(tag@, i as nat));
            }
            let ghost bc: Placement = self.buckets();
            let n: usize = self.entries.len();
            let mut j: usize = 0;
            while j < n && self.entries[j].position < k
                invariant
                    j <= n,
                    n == self.entries.len(),
                    forall|m: int| 0 <= m < j ==> (#[trigger] self.buckets()[m]).0 < k as int,
                decreases n - j,
            {
                proof {
                    assert(self.buckets()[j as int].0 == self.entries@[j as int].position as int);
                }
                j = j + 1;
            }
            proof {
                assert(j < n ==> self.buckets()[j as int].0 >= k as int);
                lemma_place_tag_shape(bc, k as int, tag@, j as int);
            }
            let at_existing: bool = j < n && self.entries[j].position == k;
            if at_existing {
                let ghost es0: Seq<RingEntry> = self.entries@;
                self.entries[j].tags.push(tag.clone());
                proof {
                    assert(self.entries@ =~= es0.update(j as int, self.entries@[j as int]));
                    assert(self.entries@[j as int].tags.deep_view() =~= es0[j as int].tags
                        .deep_view().push(tag@));
                    assert(self.buckets() =~= bc.update(
                        j as int,
                        (bc[j as int].0, bc[j as int].1.push(tag@)),
                    ));
                    assert(self.buckets() == place_tag(bc, k as int, tag@));
                    lemma_wf_update_slot(bc, j as int, tag@);
                }
            } else {
                let mut fresh_tags: Vec<String> = Vec::new();
                fresh_tags.push(tag.clone());
                let e = RingEntry { position: k, tags: fresh_tags };
                proof {
                    assert(e.tags.deep_view() =~= seq![tag@]);
                }
                self.entries.insert(j, e);
                proof {
                    assert(self.buckets() =~= bc.insert(j as int, (k as int, seq![tag@])));
                    assert(self.buckets() == place_tag(bc, k as int, tag@));
                    lemma_wf_insert_slot(bc, j as int, k as int, tag@);
                }
            }
            proof {
                assert(occurrences(self.buckets(), tag@) == i + 1) by {
                    lemma_place_tag_counts(bc, k as int, tag@, tag@);
                }
                assert forall|t: Seq<char>| t != tag@ implies #[trigger] occurrences(
                    self.buckets(),
                    t,
                ) == occurrences(b0, t) by {
                    lemma_place_tag_counts(bc, k as int, tag@, t);
                }
                assert(total_nodes(self.buckets()) == total_nodes(b0) + i + 1) by {
                    lemma_place_tag_counts(bc, k as int, tag@, tag@);
                }
                assert(self.buckets() == place_replicas(b0, tag@, (i + 1) as nat));
            }
            i = i + 1;
        }
        proof {
            assert forall|t: Seq<char>| #[trigger] occurrences(self.buckets(), t) > 0 implies self
                .table().contains_key(t) by {
                if t != tag@ {
                    assert(occurrences(old(self).buckets(), t) > 0);
                }
            }
            assert forall|t: Seq<char>| self.table().contains_key(t) implies #[trigger] occurrences(
                self.buckets(),
                t,
            ) == REPLICAS as nat by {
                if t != tag@ {
                    assert(old(self).table().contains_key(t));
                }
            }
        }
        Ok(())
    }

    /// Unregisters `tag`: every occurrence of it is erased from every
    /// bucket, buckets left empty are dropped, and its value leaves the
    /// owning table, while the virtual positions of every other tag stay
    /// untouched. Removing a tag that is not registered is a no-op by
    /// design, not an error.
    #[verifier::rlimit(60)]
    pub fn remove_item(&mut self, tag: String) -> (r: Result<(), RingError>)
        requires
            old(self).wf(),
        ensures
            r is Ok,
            final(self).wf(),
            final(self).buckets() == erase_tag(old(self).buckets(), tag@),
            final(self).table() == old(self).table().remove(tag@),
            occurrences(final(self).buckets(), tag@) == 0,
            forall|t: Seq<char>|
                t != tag@ ==> #[trigger] occurrences(final(self).buckets(), t) == occurrences(
                    old(self).buckets(),
                    t,
                ),
            total_nodes(final(self).buckets()) + occurrences(old(self).buckets(), tag@)
                == total_nodes(old(self).buckets()),
    {
        let ghost b0: Placement = self.buckets();
        let n: usize = self.entries.len();
        let mut kept: Vec<RingEntry> = Vec::new();
        let mut j: usize = 0;
        proof {
            assert(b0.skip(0) =~= b0);
        }
        while j < n
            invariant
                j <= n,
                n == self.entries.len(),
                *self == *old(self),
                b0 == self.buckets(),
                entries_view(kept@) + erase_tag(b0.skip(j as int), tag@) == erase_tag(b0, tag@),
            decreases n - j,
        {
            let ghost bview: Seq<Seq<char>> = b0[j as int].1;
            let tcount: usize = self.entries[j].tags.len();
            proof {
                assert(b0[j as int] == entry_view(self.entries@[j as int]));
                assert(bview.skip(0) =~= bview);
            }
            let mut fb: Vec<String> = Vec::new();
            let mut l: usize = 0;
            while l < tcount
                invariant
                    l <= tcount,
                    j < n,
                    n == self.entries.len(),
                    b0 == self.buckets(),
                    bview == b0[j as int].1,
                    bview == self.entries@[j as int].tags.deep_view(),
                    tcount == bview.len(),
                    fb.deep_view() + filter_out(bview.skip(l as int), tag@) == filter_out(
                        bview,
                        tag@,
                    ),
                decreases tcount - l,
            {
                let s: String = self.entries[j].tags[l].clone();
                proof {
                    assert(s@ == bview[l as int]);
                    assert(bview.skip(l as int)[0] == bview[l as int]);
                    assert(bview.skip(l as int).drop_first() =~= bview.skip(l + 1 as int));
                }
                if s == tag {
                    proof {
                        assert(filter_out(bview.skip(l as int), tag@) == filter_out(
                            bview.skip(l + 1 as int),
                            tag@,
                        ));
                    }
                } else {
                    let ghost fb0: Seq<Seq<char>> = fb.deep_view();
                    fb.push(s);
                    proof {
                        assert(fb.deep_view() =~= fb0.push(bview[l as int]));
                        assert(filter_out(bview.skip(l as int), tag@) == seq![bview[l as int]]
                            + filter_out(bview.skip(l + 1 as int), tag@));
                        assert(fb0.push(bview[l as int]) + filter_out(
                            bview.skip(l + 1 as int),
                            tag@,
                        ) =~= fb0 + filter_out(bview.skip(l as int), tag@));
                    }
                }
                l = l + 1;
            }
            proof {
                assert(bview.skip(tcount as int) =~= Seq::<Seq<char>>::empty());
                assert(filter_out(Seq::<Seq<char>>::empty(), tag@) == Seq::<Seq<char>>::empty());
                assert(fb.deep_view() + Seq::<Seq<char>>::empty() =~= fb.deep_view());
                assert(fb.deep_view() == filter_out(bview, tag@));
                assert(b0.skip(j as int)[0] == b0[j as int]);
                assert(b0.skip(j as int).drop_first() =~= b0.skip(j + 1 as int));
            }
            let ghost kept0: Seq<RingEntry> = kept@;
            if fb.len() > 0 {
                let position: u64 = self.entries[j].position;
                kept.push(RingEntry { position, tags: fb });
                proof {
                    assert(entries_view(kept@) =~= entries_view(kept0).push(
                        (b0[j as int].0, filter_out(bview, tag@)),
                    ));
                    assert(erase_tag(b0.skip(j as int), tag@) == seq![
                        (b0[j as int].0, filter_out(bview, tag@)),
                    ] + erase_tag(b0.skip(j + 1 as int), tag@));
                    assert(entries_view(kept@) + erase_tag(b0.skip(j + 1 as int), tag@)
                        =~= entries_view(kept0) + erase_tag(b0.skip(j as int), tag@));
                }
            } else {
                proof {
                    assert(erase_tag(b0.skip(j as int), tag@) == erase_tag(
                        b0.skip(j + 1 as int),
                        tag@,
                    ));
                }
            }
            j = j + 1;
        }
        proof {
            assert(b0.skip(n as int) =~= Seq::<(int, Seq<Seq<char>>)>::empty());
            assert(erase_tag(Seq::<(int, Seq<Seq<char>>)>::empty(), tag@) == Seq::<
                (int, Seq<Seq<char>>),
            >::empty());
            assert(entries_view(kept@) + Seq::<(int, Seq<Seq<char>>)>::empty() =~= entries_view(
                kept@,
            ));
            assert(entries_view(kept@) == erase_tag(b0, tag@));
        }
        self.entries = kept;
        let ghost items0: Seq<(String, T)> = self.items@;
        let n_items: usize = self.items.len();
        let mut found_idx: usize = n_items;
        let mut l: usize = 0;
        while l < n_items
            invariant
                l <= n_items,
                n_items == self.items.len(),
                self.items@ == items0,
                found_idx <= n_items,
                found_idx == n_items ==> forall|m: int|
                    0 <= m < l ==> (#[trigger] self.items@[m]).0@ != tag@,
                found_idx < n_items ==> self.items@[found_idx as int].0@ == tag@,
            decreases n_items - l,
        {
            if found_idx == n_items && self.items[l].0 == tag {
                found_idx = l;
            }
            l = l + 1;
        }
        if found_idx < n_items {
            self.items.remove(found_idx);
            proof {
                lemma_items_map_remove(items0, found_idx as int, tag@);
                assert forall|i1: int, j1: int| 0 <= i1 < j1 < self.items@.len() implies (
                #[trigger] self.items@[i1]).0@ != (#[trigger] self.items@[j1]).0@ by {
                    let oi = if i1 < found_idx {
                        i1
                    } else {
                        i1 + 1
                    };
                    let oj = if j1 < found_idx {
                        j1
                    } else {
                        j1 + 1
                    };
                    assert(self.items@[i1] == items0[oi]);
                    assert(self.items@[j1] == items0[oj]);
                }
            }
        } else {
            proof {
                lemma_items_map_absent(items0, tag@);
                assert(items_map(items0).remove(tag@) =~= items_map(items0));
            }
        }
        proof {
            assert(self.table() == old(self).table().remove(tag@));
            lemma_erase_tag_sorted(b0, tag@);
            assert forall|t: Seq<char>| t != tag@ implies #[trigger] occurrences(
                self.buckets(),
                t,
            ) == occurrences(b0, t) by {
                lemma_erase_tag_counts(b0, tag@, t);
            }
            lemma_erase_tag_counts(b0, tag@, tag@);
            assert forall|t: Seq<char>| #[trigger] occurrences(self.buckets(), t) > 0 implies self
                .table().contains_key(t) by {
                assert(t != tag@);
                assert(occurrences(old(self).buckets(), t) > 0);
            }
            assert forall|t: Seq<char>| self.table().contains_key(t) implies #[trigger] occurrences(
                self.buckets(),
                t,
            ) == REPLICAS as nat by {
                assert(t != tag@);
                assert(old(self).table().contains_key(t));
            }
        }
        Ok(())
    }

    /// Maps a request key to the owning value. Walking the index in
    /// ascending order, the owner is the first bucket whose position is
    /// at or after the key; a key beyond every stored position wraps
    /// around to the smallest-position bucket. Colliding tags within the
    /// chosen bucket are disambiguated deterministically by
    /// `key mod bucket length`. Returns `None` exactly when the ring is
    /// empty, and never changes the ring, so repeated calls with the
    /// same key select the same value.
    pub fn select(&mut self, index: i32) -> (r: Option<&T>)
        requires
            old(self).wf(),
        ensures
            *final(self) == *old(self),
            (r is None) == (old(self).buckets().len() == 0),
            old(self).buckets().len() > 0 ==> ({
                let t = selected_tag(old(self).buckets(), index as int);
                &&& old(self).table().contains_key(t)
                &&& r matches Some(v) && *v == old(self).table()[t]
            }),
    {
        let n: usize = self.entries.len();
        if n == 0 {
            proof {
                assert(self.buckets().len() == 0);
            }
            return None;
        }
        let ghost b: Placement = self.buckets();
        let mut j: usize = 0;
        while j < n && index > 0 && self.entries[j].position < index as u64
            invariant
                j <= n,
                n == self.entries.len(),
                *self == *old(self),
                b == self.buckets(),
                forall|m: int| 0 <= m < j ==> (#[trigger] b[m]).0 < index as int,
            decreases n - j,
        {
            proof {
                assert(b[j as int].0 == self.entries@[j as int].position as int);
            }
            j = j + 1;
        }
        proof {
            if j < n {
                assert(b[j as int].0 == self.entries@[j as int].position as int);
                assert(b[j as int].0 >= index as int);
            }
            lemma_first_at_or_after_unique(b, index as int, j as int);
        }
        let k: usize = if j == n {
            0
        } else {
            j
        };
        proof {
            assert(k as int == chosen_slot(b, index as int));
        }
        let blen: usize = self.entries[k].tags.len();
        proof {
            assert(b[k as int].1 == self.entries@[k as int].tags.deep_view());
            assert(blen == b[k as int].1.len());
            assert(blen > 0);
        }
        let m: usize = index_mod(index, blen);
        let t: String = self.entries[k].tags[m].clone();
        proof {
            assert(t@ == b[k as int].1[m as int]);
            assert(t@ == selected_tag(b, index as int));
            lemma_occurrences_positive(b, k as int, m as int);
            assert(self.table().contains_key(t@));
        }
        let n_items: usize = self.items.len();
        let mut l: usize = 0;
        while l < n_items
            invariant
                l <= n_items,
                n_items == self.items.len(),
                *self == *old(self),
                self.wf(),
                old(self).buckets().len() > 0,
                t@ == selected_tag(old(self).buckets(), index as int),
                self.table().contains_key(t@),
                forall|m1: int| 0 <= m1 < l ==> (#[trigger] self.items@[m1]).0@ != t@,
            decreases n_items - l,
        {
            if self.items[l].0 == t {
                proof {
                    lemma_items_map_present(self.items@, l as int);
                }
                return Some(&self.items[l].1);
            }
            l = l + 1;
        }
        proof {
            lemma_items_map_absent(self.items@, t@);
            assert(false);
        }
        None
    }
}

impl<T> Ring<T> {
    /// Total number of virtual positions currently stored, across all
    /// buckets.
    pub fn virtual_node_count(&self) -> (r: usize)
        requires
            total_nodes(self.buckets()) <= usize::MAX as nat,
        ensures
            r as nat == total_nodes(self.buckets()),
    {
        let ghost b: Placement = self.buckets();
        let n: usize = self.entries.len();
        let mut acc: usize = 0;
        let mut j: usize = 0;
        proof {
            assert(b.skip(0) =~= b);
        }
        while j < n
            invariant
                j <= n,
                n == self.entries.len(),
                b == self.buckets(),
                total_nodes(b) <= usize::MAX as nat,
                acc as nat + total_nodes(b.skip(j as int)) == total_nodes(b),
            decreases n - j,
        {
            proof {
                assert(b.skip(j as int)[0] == b[j as int]);
                assert(b.skip(j as int).drop_first() =~= b.skip(j + 1 as int));
                assert(b[j as int].1 == self.entries@[j as int].tags.deep_view());
            }
            acc = acc + self.entries[j].tags.len();
            j = j + 1;
        }
        proof {
            assert(b.skip(n as int) =~= Seq::<(int, Seq<Seq<char>>)>::empty());
        }
        acc
    }

    /// Whether any bucket still references `tag`.
    pub fn contains_node(&self, tag: &String) -> (r: bool)
        requires
            self.wf(),
        ensures
            r == (occurrences(self.buckets(), tag@) > 0),
    {
        let n_items: usize = self.items.len();
        let mut l: usize = 0;
        while l < n_items
            invariant
                l <= n_items,
                n_items == self.items.len(),
                self.wf(),
                forall|m: int| 0 <= m < l ==> (#[trigger] self.items@[m]).0@ != tag@,
            decreases n_items - l,
        {
            if self.items[l].0 == *tag {
                proof {
                    lemma_items_map_present(self.items@, l as int);
                }
                return true;
            }
            l = l + 1;
        }
        proof {
            lemma_items_map_absent(self.items@, tag@);
            assert(occurrences(self.buckets(), tag@) == 0) by {
                if occurrences(self.buckets(), tag@) > 0 {
                    assert(self.table().contains_key(tag@));
                }
            }
        }
        false
    }
}

/// Euclidean remainder of a request key by a bucket length: the result
/// is non-negative even for negative keys.
fn index_mod(index: i32, len: usize) -> (r: usize)
    requires
        len > 0,
    ensures
        r as int == (index as int) % (len as int),
        r < len,
{
    let lu: u64 = len as u64;
    if index >= 0 {
        let iu: u64 = index as u64;
        let rm: u64 = iu % lu;
        rm as usize
    } else {
        let ni: i64 = -(index as i64);
        let nu: u64 = ni as u64;
        let rm: u64 = nu % lu;
        proof {
            lemma_neg_mod(nu as int, lu as int);
            assert(index as int == -(nu as int));
        }
        if rm == 0 {
            0
        } else {
            (lu - rm) as usize
        }
    }
}

} // verus!

