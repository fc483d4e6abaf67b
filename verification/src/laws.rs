//! Laws of the region table: what sorting and merging guarantee of
//! every input, stated over the table's own model functions.

use vstd::prelude::*;

use crate::bytestr::spec_lex_lt;
use crate::memory::ranges_to_regions;
use crate::memory::spec_all_regions;
use crate::memory::spec_group_insert;
use crate::memory::MapRecord;
use crate::memory::RangeGroup;
use crate::memory::spec_group_records;
use crate::memory::spec_insert_range;
use crate::memory::spec_records;
use crate::memory::spec_region_table;
use crate::memory::spec_insert_region;
use crate::memory::spec_merge;
use crate::memory::spec_merge_from;
use crate::memory::spec_sort_ranges;
use crate::memory::spec_sort_regions;
use crate::memory::RegionView;

verus! {

/// The ranges are ordered by start, nondecreasing.
pub open spec fn ranges_sorted(rs: Seq<(usize, usize)>) -> bool {
    forall|i: int, j: int| 0 <= i < j < rs.len() ==> (#[trigger] rs[i]).0 <= (#[trigger] rs[j]).0
}

/// Each range starts strictly after the previous one ends: merged
/// output never holds two ranges that touch or overlap.
pub open spec fn ranges_separated(rs: Seq<(usize, usize)>) -> bool {
    forall|i: int| 0 <= i < rs.len() - 1 ==> (#[trigger] rs[i]).1 < rs[i + 1].0
}

proof fn lemma_insert_range_sorted(rs: Seq<(usize, usize)>, r: (usize, usize))
    requires
        ranges_sorted(rs),
    ensures
        ranges_sorted(spec_insert_range(rs, r)),
    decreases rs.len(),
{
    if rs.len() == 0 {
    } else if r.0 < rs[0].0 {
        let out = seq![r] + rs;
        assert forall|i: int, j: int|
            0 <= i < j < out.len() implies (#[trigger] out[i]).0 <= (#[trigger] out[j]).0 by {
            if i > 0 {
                assert(out[i] == rs[i - 1]);
                assert(out[j] == rs[j - 1]);
            } else {
                assert(out[j] == rs[j - 1]);
                assert(rs[0].0 <= rs[j - 1].0);
            }
        }
    } else {
        let t = rs.skip(1);
        assert(ranges_sorted(t)) by {
            assert forall|i: int, j: int|
                0 <= i < j < t.len() implies (#[trigger] t[i]).0 <= (#[trigger] t[j]).0 by {
                assert(t[i] == rs[i + 1]);
                assert(t[j] == rs[j + 1]);
            }
        }
        lemma_insert_range_sorted(t, r);
        lemma_insert_range_elems(t, r);
        let ins = spec_insert_range(t, r);
        let out = seq![rs[0]] + ins;
        assert forall|i: int, j: int|
            0 <= i < j < out.len() implies (#[trigger] out[i]).0 <= (#[trigger] out[j]).0 by {
            if i > 0 {
                assert(out[i] == ins[i - 1]);
                assert(out[j] == ins[j - 1]);
            } else {
                assert(out[j] == ins[j - 1]);
                assert(rs[0].0 <= ins[j - 1].0);
            }
        }
    }
}

/// Every element of an insertion result is the new range or one of the
/// old ones, and the length grows by one.
proof fn lemma_insert_range_elems(rs: Seq<(usize, usize)>, r: (usize, usize))
    ensures
        spec_insert_range(rs, r).len() == rs.len() + 1,
        forall|k: int|
            0 <= k < spec_insert_range(rs, r).len() ==> (#[trigger] spec_insert_range(rs, r)[k]
                == r || exists|k2: int| 0 <= k2 < rs.len() && spec_insert_range(rs, r)[k] == rs[k2]),
    decreases rs.len(),
{
    if rs.len() == 0 {
    } else if r.0 < rs[0].0 {
    } else {
        let t = rs.skip(1);
        lemma_insert_range_elems(t, r);
        let ins = spec_insert_range(t, r);
        let out = seq![rs[0]] + ins;
        assert forall|k: int|
            0 <= k < out.len() implies (#[trigger] out[k] == r || exists|k2: int|
                0 <= k2 < rs.len() && out[k] == rs[k2]) by {
            if k == 0 {
                assert(out[0] == rs[0]);
            } else {
                assert(out[k] == ins[k - 1]);
                if ins[k - 1] == r {
                } else {
                    let k2 = choose|k2: int| 0 <= k2 < t.len() && ins[k - 1] == t[k2];
                    assert(t[k2] == rs[k2 + 1]);
                }
            }
        }
    }
}

/// Sorting yields a start-ordered list.
pub proof fn lemma_sort_ranges_sorted(rs: Seq<(usize, usize)>)
    ensures
        ranges_sorted(spec_sort_ranges(rs)),
    decreases rs.len(),
{
    if rs.len() > 0 {
        lemma_sort_ranges_sorted(rs.drop_last());
        lemma_insert_range_sorted(spec_sort_ranges(rs.drop_last()), rs.last());
    }
}

/// Inserting a range that no element follows appends it.
proof fn lemma_insert_range_at_end(rs: Seq<(usize, usize)>, r: (usize, usize))
    requires
        forall|i: int| 0 <= i < rs.len() ==> !(r.0 < (#[trigger] rs[i]).0),
    ensures
        spec_insert_range(rs, r) == rs.push(r),
    decreases rs.len(),
{
    if rs.len() == 0 {
        assert(spec_insert_range(rs, r) =~= rs.push(r));
    } else {
        let t = rs.skip(1);
        assert forall|i: int| 0 <= i < t.len() implies !(r.0 < (#[trigger] t[i]).0) by {
            assert(t[i] == rs[i + 1]);
        }
        lemma_insert_range_at_end(t, r);
        assert(seq![rs[0]] + t.push(r) =~= rs.push(r));
    }
}

/// Sorting a sorted list gives it back.
pub proof fn lemma_sort_ranges_fixpoint(rs: Seq<(usize, usize)>)
    requires
        ranges_sorted(rs),
    ensures
        spec_sort_ranges(rs) == rs,
    decreases rs.len(),
{
    if rs.len() == 0 {
        assert(spec_sort_ranges(rs) =~= rs);
    } else {
        let head = rs.drop_last();
        assert(ranges_sorted(head)) by {
            assert forall|i: int, j: int|
                0 <= i < j < head.len() implies (#[trigger] head[i]).0 <= (#[trigger] head[j]).0 by {
                assert(head[i] == rs[i]);
                assert(head[j] == rs[j]);
            }
        }
        lemma_sort_ranges_fixpoint(head);
        assert forall|i: int| 0 <= i < head.len() implies !(rs.last().0 < (#[trigger] head[i]).0) by {
            assert(head[i] == rs[i]);
        }
        lemma_insert_range_at_end(head, rs.last());
        assert(head.push(rs.last()) =~= rs);
    }
}

/// Merging a start-sorted list yields a separated, start-sorted list
/// whose first range starts where the input's first range does.
#[verifier::rlimit(50)]
proof fn lemma_merge_from_separated(rest: Seq<(usize, usize)>, cur: (usize, usize))
    requires
        ranges_sorted(rest),
        forall|i: int| 0 <= i < rest.len() ==> cur.0 <= (#[trigger] rest[i]).0,
    ensures
        ranges_separated(spec_merge_from(rest, cur)),
        ranges_sorted(spec_merge_from(rest, cur)),
        spec_merge_from(rest, cur).len() > 0,
        spec_merge_from(rest, cur)[0].0 == cur.0,
    decreases rest.len(),
{
    if rest.len() == 0 {
    } else {
        let t = rest.skip(1);
        assert(ranges_sorted(t)) by {
            assert forall|i: int, j: int|
                0 <= i < j < t.len() implies (#[trigger] t[i]).0 <= (#[trigger] t[j]).0 by {
                assert(t[i] == rest[i + 1]);
                assert(t[j] == rest[j + 1]);
            }
        }
        assert(forall|i: int| 0 <= i < t.len() ==> #[trigger] t[i] == rest[i + 1]);
        if rest[0].0 <= cur.1 {
            let cur2 = (
                cur.0,
                if rest[0].1 > cur.1 {
                    rest[0].1
                } else {
                    cur.1
                },
            );
            lemma_merge_from_separated(t, cur2);
        } else {
            lemma_merge_from_separated(t, rest[0]);
            let tail = spec_merge_from(t, rest[0]);
            let out = seq![cur] + tail;
            assert(out[0] == cur);
            assert forall|i: int| 0 <= i < out.len() - 1 implies (#[trigger] out[i]).1 < out[i
                + 1].0 by {
                if i == 0 {
                    assert(out[1] == tail[0]);
                    assert(tail[0].0 == rest[0].0);
                } else {
                    assert(out[i] == tail[i - 1]);
                    assert(out[i + 1] == tail[i]);
                }
            }
            assert forall|i: int, j: int|
                0 <= i < j < out.len() implies (#[trigger] out[i]).0 <= (#[trigger] out[j]).0 by {
                if i > 0 {
                    assert(out[i] == tail[i - 1]);
                    assert(out[j] == tail[j - 1]);
                } else {
                    assert(out[j] == tail[j - 1]);
                    assert(cur.0 <= rest[0].0);
                    assert(tail[0].0 == rest[0].0);
                    assert(tail[0].0 <= tail[j - 1].0);
                }
            }
        }
    }
}

/// Merging a separated list gives it back.
proof fn lemma_merge_from_fixpoint(rest: Seq<(usize, usize)>, cur: (usize, usize))
    requires
        ranges_separated(seq![cur] + rest),
    ensures
        spec_merge_from(rest, cur) == seq![cur] + rest,
    decreases rest.len(),
{
    if rest.len() == 0 {
        assert(spec_merge_from(rest, cur) =~= seq![cur] + rest);
    } else {
        let all = seq![cur] + rest;
        assert(all[0] == cur);
        assert(all[1] == rest[0]);
        assert(cur.1 < rest[0].0);
        let t = rest.skip(1);
        assert(ranges_separated(seq![rest[0]] + t)) by {
            let inner = seq![rest[0]] + t;
            assert forall|i: int|
                0 <= i < inner.len() - 1 implies (#[trigger] inner[i]).1 < inner[i + 1].0 by {
                assert(inner[i] == all[i + 1]);
                assert(inner[i + 1] == all[i + 2]);
            }
        }
        lemma_merge_from_fixpoint(t, rest[0]);
        assert(seq![cur] + (seq![rest[0]] + t) =~= seq![cur] + rest);
    }
}

/// Law: region merging is idempotent. Sorting and merging a range list
/// that already came out of sorting and merging yields the same list.
#[verifier::rlimit(50)]
pub proof fn lemma_merge_idempotent(rs: Seq<(usize, usize)>)
    ensures
        spec_merge(spec_sort_ranges(spec_merge(spec_sort_ranges(rs)))) == spec_merge(
            spec_sort_ranges(rs),
        ),
{
    lemma_sort_ranges_sorted(rs);
    let sorted = spec_sort_ranges(rs);
    if sorted.len() == 0 {
        assert(spec_merge(sorted) =~= Seq::<(usize, usize)>::empty());
        assert(spec_sort_ranges(spec_merge(sorted)) =~= Seq::<(usize, usize)>::empty());
    } else {
        let t = sorted.skip(1);
        assert(ranges_sorted(t)) by {
            assert forall|i: int, j: int|
                0 <= i < j < t.len() implies (#[trigger] t[i]).0 <= (#[trigger] t[j]).0 by {
                assert(t[i] == sorted[i + 1]);
                assert(t[j] == sorted[j + 1]);
            }
        }
        assert(forall|i: int| 0 <= i < t.len() ==> sorted[0].0 <= (#[trigger] t[i]).0) by {
            assert(forall|i: int| 0 <= i < t.len() ==> #[trigger] t[i] == sorted[i + 1]);
        }
        lemma_merge_from_separated(t, sorted[0]);
        let merged = spec_merge(sorted);
        lemma_sort_ranges_fixpoint(merged);
        if merged.len() == 0 {
        } else {
            let mt = merged.skip(1);
            assert(ranges_separated(seq![merged[0]] + mt)) by {
                assert(seq![merged[0]] + mt =~= merged);
            }
            lemma_merge_from_fixpoint(mt, merged[0]);
            assert(seq![merged[0]] + mt =~= merged);
        }
    }
}

/// Law: the merged ranges of one group are pairwise non-overlapping:
/// of two distinct ranges, the earlier ends strictly before the later
/// starts, and the list is ordered by start.
pub proof fn lemma_merged_ranges_disjoint(rs: Seq<(usize, usize)>)
    ensures
        ranges_sorted(spec_merge(spec_sort_ranges(rs))),
        ranges_separated(spec_merge(spec_sort_ranges(rs))),
        forall|i: int, j: int|
            0 <= i < j < spec_merge(spec_sort_ranges(rs)).len() ==> (#[trigger] spec_merge(
                spec_sort_ranges(rs),
            )[i]).1 < (#[trigger] spec_merge(spec_sort_ranges(rs))[j]).0,
{
    lemma_sort_ranges_sorted(rs);
    let sorted = spec_sort_ranges(rs);
    let merged = spec_merge(sorted);
    if sorted.len() == 0 {
    } else {
        let t = sorted.skip(1);
        assert(ranges_sorted(t)) by {
            assert forall|i: int, j: int|
                0 <= i < j < t.len() implies (#[trigger] t[i]).0 <= (#[trigger] t[j]).0 by {
                assert(t[i] == sorted[i + 1]);
                assert(t[j] == sorted[j + 1]);
            }
        }
        assert(forall|i: int| 0 <= i < t.len() ==> sorted[0].0 <= (#[trigger] t[i]).0) by {
            assert(forall|i: int| 0 <= i < t.len() ==> #[trigger] t[i] == sorted[i + 1]);
        }
        lemma_merge_from_separated(t, sorted[0]);
    }
    assert forall|i: int, j: int|
        0 <= i < j < merged.len() implies (#[trigger] merged[i]).1 < (#[trigger] merged[j]).0 by {
        assert(merged[i].1 < merged[i + 1].0);
        assert(merged[i + 1].0 <= merged[j].0);
    }
}

/// The regions are ordered by start, nondecreasing.
pub open spec fn regions_sorted(rs: Seq<RegionView>) -> bool {
    forall|i: int, j: int|
        0 <= i < j < rs.len() ==> (#[trigger] rs[i]).start <= (#[trigger] rs[j]).start
}

proof fn lemma_insert_region_sorted(rs: Seq<RegionView>, r: RegionView)
    requires
        regions_sorted(rs),
    ensures
        regions_sorted(spec_insert_region(rs, r)),
    decreases rs.len(),
{
    if rs.len() == 0 {
    } else if r.start < rs[0].start {
        let out = seq![r] + rs;
        assert forall|i: int, j: int|
            0 <= i < j < out.len() implies (#[trigger] out[i]).start <= (
            #[trigger] out[j]).start by {
            if i > 0 {
                assert(out[i] == rs[i - 1]);
                assert(out[j] == rs[j - 1]);
            } else {
                assert(out[j] == rs[j - 1]);
                assert(rs[0].start <= rs[j - 1].start);
            }
        }
    } else {
        let t = rs.skip(1);
        assert(regions_sorted(t)) by {
            assert forall|i: int, j: int|
                0 <= i < j < t.len() implies (#[trigger] t[i]).start <= (
                #[trigger] t[j]).start by {
                assert(t[i] == rs[i + 1]);
                assert(t[j] == rs[j + 1]);
            }
        }
        lemma_insert_region_sorted(t, r);
        lemma_insert_region_elems(t, r);
        let ins = spec_insert_region(t, r);
        let out = seq![rs[0]] + ins;
        assert forall|i: int, j: int|
            0 <= i < j < out.len() implies (#[trigger] out[i]).start <= (
            #[trigger] out[j]).start by {
            if i > 0 {
                assert(out[i] == ins[i - 1]);
                assert(out[j] == ins[j - 1]);
            } else {
                assert(out[j] == ins[j - 1]);
                assert(rs[0].start <= ins[j - 1].start);
            }
        }
    }
}

proof fn lemma_insert_region_elems(rs: Seq<RegionView>, r: RegionView)
    ensures
        spec_insert_region(rs, r).len() == rs.len() + 1,
        forall|k: int|
            0 <= k < spec_insert_region(rs, r).len() ==> (#[trigger] spec_insert_region(rs, r)[k]
                == r || exists|k2: int|
                0 <= k2 < rs.len() && spec_insert_region(rs, r)[k] == rs[k2]),
    decreases rs.len(),
{
    if rs.len() == 0 {
    } else if r.start < rs[0].start {
    } else {
        let t = rs.skip(1);
        lemma_insert_region_elems(t, r);
        let ins = spec_insert_region(t, r);
        let out = seq![rs[0]] + ins;
        assert forall|k: int|
            0 <= k < out.len() implies (#[trigger] out[k] == r || exists|k2: int|
                0 <= k2 < rs.len() && out[k] == rs[k2]) by {
            if k == 0 {
                assert(out[0] == rs[0]);
            } else {
                assert(out[k] == ins[k - 1]);
                if ins[k - 1] == r {
                } else {
                    let k2 = choose|k2: int| 0 <= k2 < t.len() && ins[k - 1] == t[k2];
                    assert(t[k2] == rs[k2 + 1]);
                }
            }
        }
    }
}

/// Law: the final region table is ordered by start, whatever the map
/// listing held.
pub proof fn lemma_sort_regions_sorted(rs: Seq<RegionView>)
    ensures
        regions_sorted(spec_sort_regions(rs)),
    decreases rs.len(),
{
    if rs.len() > 0 {
        lemma_sort_regions_sorted(rs.drop_last());
        lemma_insert_region_sorted(spec_sort_regions(rs.drop_last()), rs.last());
    }
}


/// Law: every region table the builder returns is ordered by start,
/// whatever listing it was built from.
pub proof fn lemma_region_table_sorted(s: Seq<u8>, regions: Seq<RegionView>)
    requires
        spec_region_table(s) == Some(regions),
    ensures
        regions_sorted(regions),
{
    match spec_records(s) {
        Ok(recs) => {
            lemma_sort_regions_sorted(spec_all_regions(spec_group_records(recs)));
        },
        Err(e_) => {
            assert(false);
        },
    }
}


/// A point lies inside a range, half-open.
pub open spec fn point_in_range(r: (usize, usize), p: int) -> bool {
    r.0 <= p < r.1
}

/// Some range of the list holds the point.
pub open spec fn point_covered(rs: Seq<(usize, usize)>, p: int) -> bool {
    exists|k: int| 0 <= k < rs.len() && point_in_range(#[trigger] rs[k], p)
}

/// Every point of every merged range lies in some input range.
proof fn lemma_merge_from_covered(rest: Seq<(usize, usize)>, cur: (usize, usize), m: int, p: int)
    requires
        0 <= m < spec_merge_from(rest, cur).len(),
        point_in_range(spec_merge_from(rest, cur)[m], p),
    ensures
        point_in_range(cur, p) || point_covered(rest, p),
    decreases rest.len(),
{
    if rest.len() == 0 {
        assert(spec_merge_from(rest, cur)[0] == cur);
    } else {
        let t = rest.skip(1);
        assert(forall|i: int| 0 <= i < t.len() ==> #[trigger] t[i] == rest[i + 1]);
        if rest[0].0 <= cur.1 {
            let cur2 = (
                cur.0,
                if rest[0].1 > cur.1 {
                    rest[0].1
                } else {
                    cur.1
                },
            );
            lemma_merge_from_covered(t, cur2, m, p);
            if point_in_range(cur2, p) {
                if p < cur.1 {
                    assert(point_in_range(cur, p));
                } else {
                    assert(point_in_range(rest[0], p));
                    assert(point_covered(rest, p));
                }
            } else {
                assert(point_covered(t, p));
                let k = choose|k: int| 0 <= k < t.len() && point_in_range(#[trigger] t[k], p);
                assert(point_in_range(rest[k + 1], p));
            }
        } else {
            let tail = spec_merge_from(t, rest[0]);
            let out = seq![cur] + tail;
            if m == 0 {
                assert(out[0] == cur);
            } else {
                assert(out[m] == tail[m - 1]);
                lemma_merge_from_covered(t, rest[0], m - 1, p);
                if point_in_range(rest[0], p) {
                    assert(point_covered(rest, p));
                } else {
                    let k = choose|k: int| 0 <= k < t.len() && point_in_range(#[trigger] t[k], p);
                    assert(point_in_range(rest[k + 1], p));
                }
            }
        }
    }
}

/// Every element of a sorted list is an element of the input.
proof fn lemma_sort_ranges_elems(rs: Seq<(usize, usize)>, k: int)
    requires
        0 <= k < spec_sort_ranges(rs).len(),
    ensures
        exists|k2: int| 0 <= k2 < rs.len() && spec_sort_ranges(rs)[k] == #[trigger] rs[k2],
    decreases rs.len(),
{
    lemma_sort_ranges_len(rs);
    let head = rs.drop_last();
    let ins = spec_insert_range(spec_sort_ranges(head), rs.last());
    lemma_insert_range_elems(spec_sort_ranges(head), rs.last());
    if ins[k] == rs.last() {
        assert(ins[k] == rs[rs.len() - 1]);
    } else {
        let k1 = choose|k1: int|
            0 <= k1 < spec_sort_ranges(head).len() && ins[k] == spec_sort_ranges(head)[k1];
        lemma_sort_ranges_elems(head, k1);
        let k2 = choose|k2: int| 0 <= k2 < head.len() && spec_sort_ranges(head)[k1] == #[trigger] head[k2];
        assert(head[k2] == rs[k2]);
    }
}

/// Sorting keeps the length.
proof fn lemma_sort_ranges_len(rs: Seq<(usize, usize)>)
    ensures
        spec_sort_ranges(rs).len() == rs.len(),
    decreases rs.len(),
{
    if rs.len() > 0 {
        lemma_sort_ranges_len(rs.drop_last());
        lemma_insert_range_elems(spec_sort_ranges(rs.drop_last()), rs.last());
    }
}

/// Every point of every range of a group's merged output lies in one of
/// the group's own ranges.
proof fn lemma_group_merge_covered(g: Seq<(usize, usize)>, m: int, p: int)
    requires
        0 <= m < spec_merge(spec_sort_ranges(g)).len(),
        point_in_range(spec_merge(spec_sort_ranges(g))[m], p),
    ensures
        point_covered(g, p),
{
    let sorted = spec_sort_ranges(g);
    lemma_sort_ranges_len(g);
    assert(sorted.len() > 0);
    lemma_merge_from_covered(sorted.skip(1), sorted[0], m, p);
    if point_in_range(sorted[0], p) {
        lemma_sort_ranges_elems(g, 0);
        let k2 = choose|k2: int| 0 <= k2 < g.len() && sorted[0] == #[trigger] g[k2];
        assert(point_in_range(g[k2], p));
    } else {
        let k = choose|k: int|
            0 <= k < sorted.skip(1).len() && point_in_range(#[trigger] sorted.skip(1)[k], p);
        assert(sorted.skip(1)[k] == sorted[k + 1]);
        lemma_sort_ranges_elems(g, k + 1);
        let k2 = choose|k2: int| 0 <= k2 < g.len() && sorted[k + 1] == #[trigger] g[k2];
        assert(point_in_range(g[k2], p));
    }
}


proof fn lemma_lex_lt_irreflexive(a: Seq<u8>)
    ensures
        !spec_lex_lt(a, a),
    decreases a.len(),
{
    if a.len() > 0 {
        lemma_lex_lt_irreflexive(a.skip(1));
    }
}

/// Two distinct byte strings are ordered one way or the other.
proof fn lemma_lex_lt_total(a: Seq<u8>, b: Seq<u8>)
    requires
        a != b,
    ensures
        spec_lex_lt(a, b) || spec_lex_lt(b, a),
    decreases a.len(),
{
    if b.len() == 0 {
        assert(a.len() > 0) by {
            if a.len() == 0 {
                assert(a =~= b);
            }
        }
    } else if a.len() == 0 {
    } else if a[0] < b[0] {
    } else if a[0] > b[0] {
    } else {
        assert(a.skip(1) != b.skip(1)) by {
            if a.skip(1) == b.skip(1) {
                assert(a =~= seq![a[0]] + a.skip(1));
                assert(b =~= seq![b[0]] + b.skip(1));
            }
        }
        lemma_lex_lt_total(a.skip(1), b.skip(1));
    }
}

proof fn lemma_lex_lt_transitive(a: Seq<u8>, b: Seq<u8>, c: Seq<u8>)
    requires
        spec_lex_lt(a, b),
        spec_lex_lt(b, c),
    ensures
        spec_lex_lt(a, c),
    decreases a.len(),
{
    if c.len() == 0 {
    } else if a.len() == 0 {
    } else if b.len() == 0 {
    } else {
        if a[0] == b[0] && b[0] == c[0] {
            lemma_lex_lt_transitive(a.skip(1), b.skip(1), c.skip(1));
        }
    }
}

/// The group keys, in order.
pub open spec fn group_keys_sorted(groups: Seq<RangeGroup>) -> bool {
    forall|i: int, j: int|
        0 <= i < j < groups.len() ==> spec_lex_lt(
            (#[trigger] groups[i]).0,
            (#[trigger] groups[j]).0,
        )
}

/// A key-and-range pair that some group of the list holds.
pub open spec fn group_pair_in(groups: Seq<RangeGroup>, key: Seq<u8>, range: (usize, usize)) -> bool {
    exists|gi: int, ri: int|
        0 <= gi < groups.len() && 0 <= ri < groups[gi].1.len() && groups[gi].0 == key && #[trigger] groups[gi].1[ri] == range
}

/// Filing a record keeps the keys strictly ordered, and every pair of
/// the result is an old pair or the record's own.
proof fn lemma_group_insert_pairs(groups: Seq<RangeGroup>, r: MapRecord)
    requires
        group_keys_sorted(groups),
    ensures
        group_keys_sorted(spec_group_insert(groups, r)),
        forall|key: Seq<u8>, range: (usize, usize)|
            #[trigger] group_pair_in(spec_group_insert(groups, r), key, range) ==> group_pair_in(
                groups,
                key,
                range,
            ) || (key == r.0 && range == (r.1, r.2)),
    decreases groups.len(),
{
    let out = spec_group_insert(groups, r);
    if groups.len() == 0 {
        assert forall|key: Seq<u8>, range: (usize, usize)|
            #[trigger] group_pair_in(out, key, range) implies group_pair_in(groups, key, range) || (
        key == r.0 && range == (r.1, r.2)) by {
            let (gi, ri) = choose|gi: int, ri: int|
                0 <= gi < out.len() && 0 <= ri < out[gi].1.len() && out[gi].0 == key
                    && #[trigger] out[gi].1[ri] == range;
            assert(gi == 0);
        }
    } else if groups[0].0 == r.0 {
        let g2 = (groups[0].0, groups[0].1.push((r.1, r.2)));
        assert(out == seq![g2] + groups.skip(1));
        assert(group_keys_sorted(out)) by {
            assert forall|i: int, j: int|
                0 <= i < j < out.len() implies spec_lex_lt(
                (#[trigger] out[i]).0,
                (#[trigger] out[j]).0,
            ) by {
                assert(out[j] == groups[j]);
                if i > 0 {
                    assert(out[i] == groups[i]);
                } else {
                    assert(out[0].0 == groups[0].0);
                }
            }
        }
        assert forall|key: Seq<u8>, range: (usize, usize)|
            #[trigger] group_pair_in(out, key, range) implies group_pair_in(groups, key, range) || (
        key == r.0 && range == (r.1, r.2)) by {
            let (gi, ri) = choose|gi: int, ri: int|
                0 <= gi < out.len() && 0 <= ri < out[gi].1.len() && out[gi].0 == key
                    && #[trigger] out[gi].1[ri] == range;
            if gi == 0 {
                if ri < groups[0].1.len() {
                    assert(groups[0].1[ri] == range);
                    assert(group_pair_in(groups, key, range));
                } else {
                    assert(range == (r.1, r.2));
                }
            } else {
                assert(out[gi] == groups[gi]);
                assert(group_pair_in(groups, key, range));
            }
        }
    } else if spec_lex_lt(r.0, groups[0].0) {
        assert(out == seq![(r.0, seq![(r.1, r.2)])] + groups);
        assert(group_keys_sorted(out)) by {
            assert forall|i: int, j: int|
                0 <= i < j < out.len() implies spec_lex_lt(
                (#[trigger] out[i]).0,
                (#[trigger] out[j]).0,
            ) by {
                assert(out[j] == groups[j - 1]);
                if i > 0 {
                    assert(out[i] == groups[i - 1]);
                } else {
                    if j > 1 {
                        lemma_lex_lt_transitive(r.0, groups[0].0, groups[j - 1].0);
                    }
                }
            }
        }
        assert forall|key: Seq<u8>, range: (usize, usize)|
            #[trigger] group_pair_in(out, key, range) implies group_pair_in(groups, key, range) || (
        key == r.0 && range == (r.1, r.2)) by {
            let (gi, ri) = choose|gi: int, ri: int|
                0 <= gi < out.len() && 0 <= ri < out[gi].1.len() && out[gi].0 == key
                    && #[trigger] out[gi].1[ri] == range;
            if gi > 0 {
                assert(out[gi] == groups[gi - 1]);
                assert(group_pair_in(groups, key, range));
            }
        }
    } else {
        let t = groups.skip(1);
        assert(group_keys_sorted(t)) by {
            assert forall|i: int, j: int|
                0 <= i < j < t.len() implies spec_lex_lt(
                (#[trigger] t[i]).0,
                (#[trigger] t[j]).0,
            ) by {
                assert(t[i] == groups[i + 1]);
                assert(t[j] == groups[j + 1]);
            }
        }
        lemma_group_insert_pairs(t, r);
        let ins = spec_group_insert(t, r);
        assert(out == seq![groups[0]] + ins);
        // the record's key follows the head key
        assert(r.0 != groups[0].0);
        lemma_lex_lt_total(r.0, groups[0].0);
        assert(spec_lex_lt(groups[0].0, r.0));
        assert(group_keys_sorted(out)) by {
            assert forall|i: int, j: int|
                0 <= i < j < out.len() implies spec_lex_lt(
                (#[trigger] out[i]).0,
                (#[trigger] out[j]).0,
            ) by {
                if i > 0 {
                    assert(out[i] == ins[i - 1]);
                    assert(out[j] == ins[j - 1]);
                } else {
                    assert(out[j] == ins[j - 1]);
                    // every key of the inserted tail is an old tail key
                    // or the record's; the head key precedes both
                    assert(0 <= j - 1 < ins.len() && 0 <= 0 < ins[j - 1].1.len() + 1);
                    lemma_group_insert_keys_from(t, r, j - 1);
                    if ins[j - 1].0 == r.0 {
                    } else {
                        let k = choose|k: int| 0 <= k < t.len() && ins[j - 1].0 == #[trigger] t[k].0;
                        assert(t[k] == groups[k + 1]);
                    }
                }
            }
        }
        assert forall|key: Seq<u8>, range: (usize, usize)|
            #[trigger] group_pair_in(out, key, range) implies group_pair_in(groups, key, range) || (
        key == r.0 && range == (r.1, r.2)) by {
            let (gi, ri) = choose|gi: int, ri: int|
                0 <= gi < out.len() && 0 <= ri < out[gi].1.len() && out[gi].0 == key
                    && #[trigger] out[gi].1[ri] == range;
            if gi == 0 {
                assert(out[0] == groups[0]);
                assert(group_pair_in(groups, key, range));
            } else {
                assert(out[gi] == ins[gi - 1]);
                assert(group_pair_in(ins, key, range));
                if group_pair_in(t, key, range) {
                    let (gi2, ri2) = choose|gi2: int, ri2: int|
                        0 <= gi2 < t.len() && 0 <= ri2 < t[gi2].1.len() && t[gi2].0 == key
                            && #[trigger] t[gi2].1[ri2] == range;
                    assert(t[gi2] == groups[gi2 + 1]);
                    assert(group_pair_in(groups, key, range));
                }
            }
        }
    }
}

/// Every key of a filing result is an old key or the record's.
proof fn lemma_group_insert_keys_from(groups: Seq<RangeGroup>, r: MapRecord, gi: int)
    requires
        0 <= gi < spec_group_insert(groups, r).len(),
    ensures
        spec_group_insert(groups, r)[gi].0 == r.0 || exists|k: int|
            0 <= k < groups.len() && spec_group_insert(groups, r)[gi].0 == (#[trigger] groups[k]).0,
    decreases groups.len(),
{
    let out = spec_group_insert(groups, r);
    if groups.len() == 0 {
    } else if groups[0].0 == r.0 {
        if gi > 0 {
            assert(out[gi] == groups[gi]);
        } else {
            assert(out[0].0 == groups[0].0);
        }
    } else if spec_lex_lt(r.0, groups[0].0) {
        if gi > 0 {
            assert(out[gi] == groups[gi - 1]);
        }
    } else {
        let t = groups.skip(1);
        if gi == 0 {
            assert(out[0] == groups[0]);
        } else {
            assert(out[gi] == spec_group_insert(t, r)[gi - 1]);
            lemma_group_insert_keys_from(t, r, gi - 1);
            if spec_group_insert(t, r)[gi - 1].0 == r.0 {
            } else {
                let k = choose|k: int|
                    0 <= k < t.len() && spec_group_insert(t, r)[gi - 1].0 == (#[trigger] t[k]).0;
                assert(t[k] == groups[k + 1]);
            }
        }
    }
}

/// The groups of a record list: keys strictly ordered, and every pair
/// traceable to a record with that key and range.
proof fn lemma_group_records_pairs(recs: Seq<MapRecord>)
    ensures
        group_keys_sorted(spec_group_records(recs)),
        forall|key: Seq<u8>, range: (usize, usize)|
            #[trigger] group_pair_in(spec_group_records(recs), key, range) ==> exists|k: int|
                0 <= k < recs.len() && (#[trigger] recs[k]).0 == key && (recs[k].1, recs[k].2)
                    == range,
    decreases recs.len(),
{
    if recs.len() == 0 {
    } else {
        let head = recs.drop_last();
        lemma_group_records_pairs(head);
        lemma_group_insert_pairs(spec_group_records(head), recs.last());
        assert forall|key: Seq<u8>, range: (usize, usize)|
            #[trigger] group_pair_in(spec_group_records(recs), key, range) implies exists|k: int|
            0 <= k < recs.len() && (#[trigger] recs[k]).0 == key && (recs[k].1, recs[k].2)
                == range by {
            if group_pair_in(spec_group_records(head), key, range) {
                let k = choose|k: int|
                    0 <= k < head.len() && (#[trigger] head[k]).0 == key && (head[k].1, head[k].2)
                        == range;
                assert(recs[k] == head[k]);
            } else {
                assert(recs[recs.len() - 1] == recs.last());
            }
        }
    }
}


/// A point lies inside a region's half-open `[start, end)` span.
pub open spec fn region_has_point(r: RegionView, p: int) -> bool {
    r.start <= p < r.end
}

/// No point lies in two distinct regions of the list; overlap is read
/// over the half-open spans, so regions that merely touch are allowed.
pub open spec fn regions_no_common_point(rs: Seq<RegionView>) -> bool {
    forall|i: int, j: int, p: int|
        0 <= i < rs.len() && 0 <= j < rs.len() && i != j ==> !(#[trigger] region_has_point(rs[i], p)
            && #[trigger] region_has_point(rs[j], p))
}

/// A point inside any region of the flattened group output lies in one
/// of the groups' own ranges, under that region's pathname.
proof fn lemma_all_regions_point(groups: Seq<RangeGroup>, m: int, p: int)
    requires
        0 <= m < spec_all_regions(groups).len(),
        region_has_point(spec_all_regions(groups)[m], p),
    ensures
        exists|key: Seq<u8>, range: (usize, usize)|
            #[trigger] group_pair_in(groups, key, range) && point_in_range(range, p)
                && spec_all_regions(groups)[m].pathname == key,
    decreases groups.len(),
{
    let all = spec_all_regions(groups);
    let head = ranges_to_regions(spec_merge(spec_sort_ranges(groups[0].1)), groups[0].0);
    if m < head.len() {
        assert(all[m] == head[m]);
        let merged = spec_merge(spec_sort_ranges(groups[0].1));
        assert(point_in_range(merged[m], p));
        lemma_group_merge_covered(groups[0].1, m, p);
        let k = choose|k: int|
            0 <= k < groups[0].1.len() && point_in_range(#[trigger] groups[0].1[k], p);
        assert(group_pair_in(groups, groups[0].0, groups[0].1[k]));
    } else {
        let t = groups.skip(1);
        assert(all[m] == spec_all_regions(t)[m - head.len()]);
        lemma_all_regions_point(t, m - head.len(), p);
        let (key, range) = choose|key: Seq<u8>, range: (usize, usize)|
            #[trigger] group_pair_in(t, key, range) && point_in_range(range, p)
                && spec_all_regions(t)[m - head.len()].pathname == key;
        let (gi, ri) = choose|gi: int, ri: int|
            0 <= gi < t.len() && 0 <= ri < t[gi].1.len() && t[gi].0 == key && #[trigger] t[gi].1[ri]
                == range;
        assert(t[gi] == groups[gi + 1]);
        assert(group_pair_in(groups, key, range));
    }
}

/// Pairwise half-open disjointness of the records' address ranges.
pub open spec fn records_disjoint(recs: Seq<MapRecord>) -> bool {
    forall|i: int, j: int|
        0 <= i < recs.len() && 0 <= j < recs.len() && i != j ==> (#[trigger] recs[i]).2
            <= recs[j].1 || (#[trigger] recs[j]).2 <= recs[i].1
}

/// No point lies in two distinct regions of the flattened group output,
/// when every group pair traces to one of pairwise disjoint records.
proof fn lemma_all_regions_no_common(groups: Seq<RangeGroup>, recs: Seq<MapRecord>)
    requires
        group_keys_sorted(groups),
        records_disjoint(recs),
        forall|key: Seq<u8>, range: (usize, usize)|
            #[trigger] group_pair_in(groups, key, range) ==> exists|k: int|
                0 <= k < recs.len() && (#[trigger] recs[k]).0 == key && (recs[k].1, recs[k].2)
                    == range,
    ensures
        regions_no_common_point(spec_all_regions(groups)),
    decreases groups.len(),
{
    let all = spec_all_regions(groups);
    if groups.len() == 0 {
        return ;
    }
    let merged = spec_merge(spec_sort_ranges(groups[0].1));
    let head = ranges_to_regions(merged, groups[0].0);
    let t = groups.skip(1);
    assert(group_keys_sorted(t)) by {
        assert forall|i: int, j: int|
            0 <= i < j < t.len() implies spec_lex_lt((#[trigger] t[i]).0, (#[trigger] t[j]).0) by {
            assert(t[i] == groups[i + 1]);
            assert(t[j] == groups[j + 1]);
        }
    }
    assert(forall|key: Seq<u8>, range: (usize, usize)|
        #[trigger] group_pair_in(t, key, range) ==> group_pair_in(groups, key, range)) by {
        assert forall|key: Seq<u8>, range: (usize, usize)|
            #[trigger] group_pair_in(t, key, range) implies group_pair_in(groups, key, range) by {
            let (gi, ri) = choose|gi: int, ri: int|
                0 <= gi < t.len() && 0 <= ri < t[gi].1.len() && t[gi].0 == key && #[trigger] t[gi].1[ri]
                    == range;
            assert(t[gi] == groups[gi + 1]);
        }
    }
    lemma_all_regions_no_common(t, recs);
    lemma_merged_ranges_disjoint(groups[0].1);
    assert forall|i: int, j: int, p: int|
        0 <= i < all.len() && 0 <= j < all.len() && i != j implies !(#[trigger] region_has_point(
        all[i],
        p,
    ) && #[trigger] region_has_point(all[j], p)) by {
        if region_has_point(all[i], p) && region_has_point(all[j], p) {
            let hl = head.len() as int;
            if i < hl && j < hl {
                // two ranges of one merged group never share a point
                assert(all[i] == head[i]);
                assert(all[j] == head[j]);
                assert(point_in_range(merged[i], p));
                assert(point_in_range(merged[j], p));
                if i < j {
                    assert(merged[i].1 < merged[j].0);
                } else {
                    assert(merged[j].1 < merged[i].0);
                }
                assert(false);
            } else if i >= hl && j >= hl {
                assert(all[i] == spec_all_regions(t)[i - hl]);
                assert(all[j] == spec_all_regions(t)[j - hl]);
                assert(region_has_point(spec_all_regions(t)[i - hl], p));
                assert(region_has_point(spec_all_regions(t)[j - hl], p));
                assert(false);
            } else {
                // one region of the head group, one of a later group:
                // their points come from records of different pathnames
                let (ih, it) = if i < hl {
                    (i, j)
                } else {
                    (j, i)
                };
                assert(all[ih] == head[ih]);
                assert(point_in_range(merged[ih], p));
                lemma_group_merge_covered(groups[0].1, ih, p);
                let r1 = choose|k: int|
                    0 <= k < groups[0].1.len() && point_in_range(#[trigger] groups[0].1[k], p);
                assert(group_pair_in(groups, groups[0].0, groups[0].1[r1]));
                let k1 = choose|k: int|
                    0 <= k < recs.len() && (#[trigger] recs[k]).0 == groups[0].0 && (recs[k].1,
                    recs[k].2) == groups[0].1[r1];
                lemma_all_regions_point(t, it - hl, p);
                let (key2, range2) = choose|key: Seq<u8>, range: (usize, usize)|
                    #[trigger] group_pair_in(t, key, range) && point_in_range(range, p)
                        && spec_all_regions(t)[it - hl].pathname == key;
                let k2 = choose|k: int|
                    0 <= k < recs.len() && (#[trigger] recs[k]).0 == key2 && (recs[k].1, recs[k].2)
                        == range2;
                // the later group's key strictly follows the head key
                let (gi2, ri2) = choose|gi: int, ri: int|
                    0 <= gi < t.len() && 0 <= ri < t[gi].1.len() && t[gi].0 == key2
                        && #[trigger] t[gi].1[ri] == range2;
                assert(t[gi2] == groups[gi2 + 1]);
                assert(spec_lex_lt(groups[0].0, key2));
                assert(groups[0].0 != key2) by {
                    if groups[0].0 == key2 {
                        lemma_lex_lt_irreflexive(key2);
                    }
                }
                assert(k1 != k2);
                assert(point_in_range(groups[0].1[r1], p));
                assert(point_in_range(range2, p));
                assert(false);
            }
        }
    }
}

proof fn lemma_sort_regions_len(rs: Seq<RegionView>)
    ensures
        spec_sort_regions(rs).len() == rs.len(),
    decreases rs.len(),
{
    if rs.len() > 0 {
        lemma_sort_regions_len(rs.drop_last());
        lemma_insert_region_elems(spec_sort_regions(rs.drop_last()), rs.last());
    }
}

proof fn lemma_sort_regions_elems(rs: Seq<RegionView>, k: int)
    requires
        0 <= k < spec_sort_regions(rs).len(),
    ensures
        exists|k2: int| 0 <= k2 < rs.len() && spec_sort_regions(rs)[k] == #[trigger] rs[k2],
    decreases rs.len(),
{
    lemma_sort_regions_len(rs);
    let head = rs.drop_last();
    let ins = spec_insert_region(spec_sort_regions(head), rs.last());
    lemma_insert_region_elems(spec_sort_regions(head), rs.last());
    if ins[k] == rs.last() {
        assert(ins[k] == rs[rs.len() - 1]);
    } else {
        let k1 = choose|k1: int|
            0 <= k1 < spec_sort_regions(head).len() && ins[k] == spec_sort_regions(head)[k1];
        lemma_sort_regions_elems(head, k1);
        let k2 = choose|k2: int|
            0 <= k2 < head.len() && spec_sort_regions(head)[k1] == #[trigger] head[k2];
        assert(head[k2] == rs[k2]);
    }
}

/// Inserting a region that shares a point with no list element keeps
/// the list free of common points.
proof fn lemma_insert_region_no_common(rs: Seq<RegionView>, r: RegionView)
    requires
        regions_no_common_point(rs),
        forall|k: int, p: int|
            0 <= k < rs.len() ==> !(#[trigger] region_has_point(rs[k], p) && region_has_point(
                r,
                p,
            )),
    ensures
        regions_no_common_point(spec_insert_region(rs, r)),
    decreases rs.len(),
{
    let out = spec_insert_region(rs, r);
    if rs.len() == 0 {
        assert forall|i: int, j: int, p: int|
            0 <= i < out.len() && 0 <= j < out.len() && i != j implies !(
        #[trigger] region_has_point(out[i], p) && #[trigger] region_has_point(out[j], p)) by {}
    } else if r.start < rs[0].start {
        assert(out == seq![r] + rs);
        assert forall|i: int, j: int, p: int|
            0 <= i < out.len() && 0 <= j < out.len() && i != j implies !(
        #[trigger] region_has_point(out[i], p) && #[trigger] region_has_point(out[j], p)) by {
            if region_has_point(out[i], p) && region_has_point(out[j], p) {
                if i > 0 && j > 0 {
                    assert(out[i] == rs[i - 1]);
                    assert(out[j] == rs[j - 1]);
                } else if i == 0 {
                    assert(out[0] == r);
                    assert(out[j] == rs[j - 1]);
                } else {
                    assert(out[0] == r);
                    assert(out[i] == rs[i - 1]);
                }
                assert(false);
            }
        }
    } else {
        let t = rs.skip(1);
        assert(regions_no_common_point(t)) by {
            assert forall|i: int, j: int, p: int|
                0 <= i < t.len() && 0 <= j < t.len() && i != j implies !(
            #[trigger] region_has_point(t[i], p) && #[trigger] region_has_point(t[j], p)) by {
                assert(t[i] == rs[i + 1]);
                assert(t[j] == rs[j + 1]);
            }
        }
        assert(forall|k: int, p: int|
            0 <= k < t.len() ==> !(#[trigger] region_has_point(t[k], p) && region_has_point(
                r,
                p,
            ))) by {
            assert(forall|k: int| 0 <= k < t.len() ==> #[trigger] t[k] == rs[k + 1]);
        }
        lemma_insert_region_no_common(t, r);
        lemma_insert_region_elems(t, r);
        let ins = spec_insert_region(t, r);
        assert(out == seq![rs[0]] + ins);
        assert forall|i: int, j: int, p: int|
            0 <= i < out.len() && 0 <= j < out.len() && i != j implies !(
        #[trigger] region_has_point(out[i], p) && #[trigger] region_has_point(out[j], p)) by {
            if region_has_point(out[i], p) && region_has_point(out[j], p) {
                if i > 0 && j > 0 {
                    assert(out[i] == ins[i - 1]);
                    assert(out[j] == ins[j - 1]);
                } else {
                    let jj = if i == 0 {
                        j
                    } else {
                        i
                    };
                    assert(out[0] == rs[0]);
                    assert(out[jj] == ins[jj - 1]);
                    if ins[jj - 1] == r {
                        assert(region_has_point(rs[0], p) && region_has_point(r, p));
                    } else {
                        let k2 = choose|k2: int| 0 <= k2 < t.len() && ins[jj - 1] == t[k2];
                        assert(t[k2] == rs[k2 + 1]);
                        assert(region_has_point(rs[0], p) && region_has_point(rs[k2 + 1], p));
                    }
                }
                assert(false);
            }
        }
    }
}

/// Sorting keeps the list free of common points.
proof fn lemma_sort_regions_no_common(rs: Seq<RegionView>)
    requires
        regions_no_common_point(rs),
    ensures
        regions_no_common_point(spec_sort_regions(rs)),
    decreases rs.len(),
{
    if rs.len() == 0 {
    } else {
        let head = rs.drop_last();
        assert(regions_no_common_point(head)) by {
            assert forall|i: int, j: int, p: int|
                0 <= i < head.len() && 0 <= j < head.len() && i != j implies !(
            #[trigger] region_has_point(head[i], p) && #[trigger] region_has_point(head[j], p)) by {
                assert(head[i] == rs[i]);
                assert(head[j] == rs[j]);
            }
        }
        lemma_sort_regions_no_common(head);
        lemma_sort_regions_len(head);
        assert(forall|k: int, p: int|
            0 <= k < spec_sort_regions(head).len() ==> !(#[trigger] region_has_point(
                spec_sort_regions(head)[k],
                p,
            ) && region_has_point(rs.last(), p))) by {
            assert forall|k: int, p: int|
                0 <= k < spec_sort_regions(head).len() && region_has_point(
                    spec_sort_regions(head)[k],
                    p,
                ) implies !region_has_point(rs.last(), p) by {
                lemma_sort_regions_elems(head, k);
                let k2 = choose|k2: int|
                    0 <= k2 < head.len() && spec_sort_regions(head)[k] == #[trigger] head[k2];
                assert(head[k2] == rs[k2]);
                assert(rs.last() == rs[rs.len() - 1]);
                assert(k2 != rs.len() - 1);
            }
        }
        lemma_insert_region_no_common(spec_sort_regions(head), rs.last());
    }
}

/// Law: the regions of a table built from pairwise disjoint map records
/// never share a point: distinct regions' half-open spans are disjoint.
/// A listing whose lines overlap (one address in two mappings) is left
/// out: such regions can genuinely overlap.
pub proof fn lemma_region_table_disjoint(s: Seq<u8>, regions: Seq<RegionView>)
    requires
        spec_region_table(s) == Some(regions),
        spec_records(s) matches Ok(recs) && records_disjoint(recs),
    ensures
        regions_no_common_point(regions),
{
    match spec_records(s) {
        Ok(recs) => {
            lemma_group_records_pairs(recs);
            lemma_all_regions_no_common(spec_group_records(recs), recs);
            lemma_sort_regions_no_common(spec_all_regions(spec_group_records(recs)));
        },
        Err(e_) => {
            assert(false);
        },
    }
}


/// Law: among start-sorted regions without a common point, each one
/// that is nonempty ends no later than any later one starts — the
/// ordered reading of non-overlap. A degenerate region whose half-open
/// span is empty (start equal to end) is left out: it holds no point,
/// so it can sit anywhere without overlapping.
pub proof fn lemma_sorted_disjoint_regions_ordered(regions: Seq<RegionView>)
    requires
        regions_sorted(regions),
        regions_no_common_point(regions),
        forall|i: int| 0 <= i < regions.len() ==> (#[trigger] regions[i]).start < regions[i].end,
    ensures
        forall|i: int, j: int|
            0 <= i < j < regions.len() ==> (#[trigger] regions[i]).end <= (
            #[trigger] regions[j]).start,
{
    assert forall|i: int, j: int|
        0 <= i < j < regions.len() implies (#[trigger] regions[i]).end <= (
    #[trigger] regions[j]).start by {
        if regions[i].end > regions[j].start {
            let p = regions[j].start;
            assert(region_has_point(regions[j], p));
            assert(region_has_point(regions[i], p));
            assert(false);
        }
    }
}


/// Law: a table built from pairwise disjoint records, none of whose
/// regions comes out empty, is fully ordered: each region ends no later
/// than any later one starts. A degenerate record such as an empty
/// `5000-5000` range is left out: its region holds no point, so the
/// ordered reading fails on it while non-overlap still holds.
pub proof fn lemma_region_table_ordered(s: Seq<u8>, regions: Seq<RegionView>)
    requires
        spec_region_table(s) == Some(regions),
        spec_records(s) matches Ok(recs) && records_disjoint(recs),
        forall|i: int| 0 <= i < regions.len() ==> (#[trigger] regions[i]).start < regions[i].end,
    ensures
        forall|i: int, j: int|
            0 <= i < j < regions.len() ==> (#[trigger] regions[i]).end <= (
            #[trigger] regions[j]).start,
{
    lemma_region_table_sorted(s, regions);
    lemma_region_table_disjoint(s, regions);
    lemma_sorted_disjoint_regions_ordered(regions);
}

} // verus!
