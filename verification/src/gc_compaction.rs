//! GC-compaction: collapse history below the GC horizon into images while
//! preserving retain-LSN snapshots.
//!
//! Given a key's full history (ascending LSN), the retain LSNs of child
//! branches and the GC horizon, the history is cut into buckets at those
//! LSNs, duplicates from the merge of image and delta layers are dropped,
//! and each below-horizon bucket is emitted either verbatim or as a single
//! reconstructed image at its upper LSN; everything above the horizon is
//! kept verbatim. Reconstruction at any retain LSN or at the horizon is
//! unchanged by this rewrite.

use vstd::prelude::*;
use crate::compaction::{CancelToken, CompactionStatistics};
use crate::errors::EngineError;
use crate::value::{replay_values, Value, ValueView};

verus! {

/// Maximum number of delta records before an image is materialized.
pub const COMPACTION_DELTA_THRESHOLD: usize = 5;

/// The logs needed to reconstruct a key's value at one LSN.
pub struct KeyLogAtLsn(pub Vec<(u64, Value)>);

/// The result of GC-compaction for a single key.
pub struct KeyHistoryRetention {
    /// Per below-horizon cutoff (each retain LSN, then the horizon): the
    /// logs that reconstruct the value at that LSN.
    pub below_horizon: Vec<(u64, KeyLogAtLsn)>,
    /// The logs above the horizon, kept verbatim.
    pub above_horizon: KeyLogAtLsn,
}

/// View of `(lsn, value)` logs.
pub open spec fn lv_view(s: Seq<(u64, Value)>) -> Seq<(u64, ValueView)> {
    s.map_values(|p: (u64, Value)| (p.0, p.1@))
}

/// The values of a history, LSNs dropped.
pub open spec fn lv_values(s: Seq<(u64, ValueView)>) -> Seq<ValueView> {
    s.map_values(|p: (u64, ValueView)| p.1)
}

/// View of a key history given as `(key, lsn, value)` triples.
pub open spec fn triples_view(s: Seq<(u128, u64, Value)>) -> Seq<(u64, ValueView)> {
    s.map_values(|e: (u128, u64, Value)| (e.1, e.2@))
}

/// The entries at or below `lsn`.
pub open spec fn spec_visible_upto(s: Seq<(u64, ValueView)>, lsn: u64) -> Seq<(u64, ValueView)>
    decreases s.len(),
{
    if s.len() == 0 {
        Seq::empty()
    } else if s.last().0 <= lsn {
        spec_visible_upto(s.drop_last(), lsn).push(s.last())
    } else {
        spec_visible_upto(s.drop_last(), lsn)
    }
}

/// The entries with `lo < lsn` (no bound when `lo` is `None`) and
/// `lsn <= hi` (no bound when `hi` is `None`).
pub open spec fn spec_bucket(
    s: Seq<(u64, ValueView)>,
    lo: Option<u64>,
    hi: Option<u64>,
) -> Seq<(u64, ValueView)>
    decreases s.len(),
{
    if s.len() == 0 {
        Seq::empty()
    } else if (lo is None || s.last().0 > lo.unwrap()) && (hi is None || s.last().0 <= hi.unwrap()) {
        spec_bucket(s.drop_last(), lo, hi).push(s.last())
    } else {
        spec_bucket(s.drop_last(), lo, hi)
    }
}

/// Drop, from each run of entries at one LSN, all but the first — the
/// merge order puts the image first, so the image wins over a record at
/// the same LSN.
pub open spec fn spec_dedup(s: Seq<(u64, ValueView)>) -> Seq<(u64, ValueView)>
    decreases s.len(),
{
    if s.len() <= 1 {
        s
    } else if s.last().0 == s[s.len() - 2].0 {
        spec_dedup(s.drop_last())
    } else {
        spec_dedup(s.drop_last()).push(s.last())
    }
}

/// Whether some entry is self-initializing.
pub open spec fn has_init(s: Seq<(u64, ValueView)>) -> bool {
    exists|p: int| 0 <= p < s.len() && (#[trigger] s[p]).1.will_init()
}

/// The first nonempty visible prefix of the history: the entries at or
/// below the lowest cutoff that sees any, or the whole history when no
/// cutoff sees one.
pub open spec fn spec_first_visible(dh: Seq<(u64, ValueView)>, cuts: Seq<u64>) -> Seq<
    (u64, ValueView),
>
    decreases cuts.len(),
{
    if cuts.len() == 0 {
        dh
    } else if spec_visible_upto(dh, cuts[0]).len() > 0 {
        spec_visible_upto(dh, cuts[0])
    } else {
        spec_first_visible(dh, cuts.drop_first())
    }
}

/// A higher cutoff never sees fewer entries.
proof fn lemma_visible_mono(s: Seq<(u64, ValueView)>, c1: u64, c2: u64)
    requires
        c1 <= c2,
    ensures
        spec_visible_upto(s, c1).len() <= spec_visible_upto(s, c2).len(),
    decreases s.len(),
{
    if s.len() > 0 {
        lemma_visible_mono(s.drop_last(), c1, c2);
    }
}

/// When every cutoff before `i` sees nothing and cutoff `i` (if there is
/// one) sees something, the first visible prefix is cutoff `i`'s — or
/// the whole history, past the last cutoff.
proof fn lemma_first_visible(dh: Seq<(u64, ValueView)>, cuts: Seq<u64>, i: int)
    requires
        forall|p: int, q: int|
            0 <= p < q < cuts.len() ==> (#[trigger] cuts[p]) <= (#[trigger] cuts[q]),
        0 <= i <= cuts.len(),
        i >= 1 ==> spec_visible_upto(dh, cuts[i - 1]).len() == 0,
        i < cuts.len() ==> spec_visible_upto(dh, cuts[i]).len() > 0,
    ensures
        spec_first_visible(dh, cuts) == (if i < cuts.len() {
            spec_visible_upto(dh, cuts[i])
        } else {
            dh
        }),
    decreases cuts.len(),
{
    if cuts.len() == 0 {
    } else if i == 0 {
    } else {
        lemma_visible_mono(dh, cuts[0], cuts[i - 1]);
        assert(spec_visible_upto(dh, cuts[0]).len() == 0);
        let cuts2 = cuts.drop_first();
        assert forall|p: int, q: int|
            0 <= p < q < cuts2.len() implies (#[trigger] cuts2[p]) <= (#[trigger] cuts2[q]) by {
            assert(cuts2[p] == cuts[p + 1]);
            assert(cuts2[q] == cuts[q + 1]);
        }
        if i - 1 >= 1 {
            assert(cuts2[i - 2] == cuts[i - 1]);
        }
        if i - 1 < cuts2.len() {
            assert(cuts2[i - 1] == cuts[i as int]);
        }
        lemma_first_visible(dh, cuts2, i - 1);
    }
}

/// A bucket appended to an empty prefix is the history's first visible
/// prefix.
proof fn lemma_first_visible_bucket(
    dh: Seq<(u64, ValueView)>,
    cuts: Seq<u64>,
    i: int,
    bs: Seq<(u64, ValueView)>,
    done_before: Seq<(u64, ValueView)>,
    new_done: Seq<(u64, ValueView)>,
    bkt: Seq<(u64, ValueView)>,
)
    requires
        forall|p: int, q: int|
            0 <= p < q < cuts.len() ==> (#[trigger] cuts[p]) <= (#[trigger] cuts[q]),
        0 <= i <= cuts.len(),
        bs.len() == 0,
        done_before.len() == 0,
        new_done == done_before + bkt,
        new_done.len() > 0,
        i >= 1 ==> done_before == bs + spec_visible_upto(dh, cuts[i - 1]),
        i < cuts.len() ==> new_done == bs + spec_visible_upto(dh, cuts[i]),
        i == cuts.len() ==> new_done == bs + dh,
    ensures
        spec_first_visible(dh, cuts) == bkt,
{
    if i >= 1 {
        assert(spec_visible_upto(dh, cuts[i - 1]).len() == 0);
    }
    if i < cuts.len() {
        assert(bs + spec_visible_upto(dh, cuts[i]) =~= spec_visible_upto(dh, cuts[i]));
    } else {
        assert(bs + dh =~= dh);
    }
    lemma_first_visible(dh, cuts, i);
    assert(spec_first_visible(dh, cuts) == new_done);
    assert(new_done =~= bkt);
}

/// LSNs never decrease along the history.
pub open spec fn lsns_sorted(s: Seq<(u64, ValueView)>) -> bool {
    forall|p: int, q: int| 0 <= p < q < s.len() ==> (#[trigger] s[p]).0 <= (#[trigger] s[q]).0
}

/// LSNs strictly increase along the history.
pub open spec fn lsns_strict(s: Seq<(u64, ValueView)>) -> bool {
    forall|p: int, q: int| 0 <= p < q < s.len() ==> (#[trigger] s[p]).0 < (#[trigger] s[q]).0
}

/// Deduplication keeps the history sorted — strictly now — bounded by
/// and ending at the same last LSN.
proof fn lemma_dedup_shape(s: Seq<(u64, ValueView)>)
    requires
        lsns_sorted(s),
    ensures
        lsns_strict(spec_dedup(s)),
        s.len() > 0 ==> spec_dedup(s).len() > 0 && spec_dedup(s).last().0 == s.last().0,
        s.len() == 0 ==> spec_dedup(s).len() == 0,
        s.len() > 0 ==> forall|p: int|
            0 <= p < spec_dedup(s).len() ==> (#[trigger] spec_dedup(s)[p]).0 <= s.last().0,
        s.len() > 0 ==> spec_dedup(s)[0] == s[0],
    decreases s.len(),
{
    if s.len() > 1 {
        assert(lsns_sorted(s.drop_last()));
        lemma_dedup_shape(s.drop_last());
        let d = spec_dedup(s);
        let dd = spec_dedup(s.drop_last());
        assert(s.drop_last().last() == s[s.len() - 2]);
        assert(s[s.len() - 2].0 <= s.last().0);
        if s.last().0 != s[s.len() - 2].0 {
            assert forall|p: int, q: int| 0 <= p < q < d.len() implies (#[trigger] d[p]).0 < (
            #[trigger] d[q]).0 by {
                if q == d.len() - 1 {
                    assert(d[q] == s.last());
                    assert(d[p] == dd[p]);
                    assert(dd[p].0 <= s[s.len() - 2].0);
                }
            }
        }
    }
}

/// Buckets distribute over concatenation.
proof fn lemma_bucket_concat(a: Seq<(u64, ValueView)>, b: Seq<(u64, ValueView)>, lo: Option<u64>, hi: Option<u64>)
    ensures
        spec_bucket(a + b, lo, hi) == spec_bucket(a, lo, hi) + spec_bucket(b, lo, hi),
    decreases b.len(),
{
    if b.len() == 0 {
        assert(a + b =~= a);
        assert(spec_bucket(a, lo, hi) + spec_bucket(b, lo, hi) =~= spec_bucket(a, lo, hi));
    } else {
        lemma_bucket_concat(a, b.drop_last(), lo, hi);
        assert((a + b).drop_last() =~= a + b.drop_last());
        assert((a + b).last() == b.last());
        if (lo is None || b.last().0 > lo.unwrap()) && (hi is None || b.last().0 <= hi.unwrap()) {
            assert(spec_bucket(a, lo, hi) + spec_bucket(b, lo, hi) =~= (spec_bucket(a, lo, hi)
                + spec_bucket(b.drop_last(), lo, hi)).push(b.last()));
        }
    }
}

/// The last visible entry sits no later than the history's last entry,
/// and at or below the cutoff.
proof fn lemma_visible_last(s: Seq<(u64, ValueView)>, x: u64)
    requires
        lsns_sorted(s),
        spec_visible_upto(s, x).len() > 0,
    ensures
        s.len() > 0,
        spec_visible_upto(s, x).last().0 <= s.last().0,
        spec_visible_upto(s, x).last().0 <= x,
    decreases s.len(),
{
    if s.len() > 0 {
        assert(lsns_sorted(s.drop_last()));
        if s.last().0 <= x {
        } else {
            lemma_visible_last(s.drop_last(), x);
            assert(s.drop_last().last().0 <= s.last().0);
        }
    }
}

/// Nothing is visible below a cutoff that the whole history exceeds.
proof fn lemma_visible_none(s: Seq<(u64, ValueView)>, x: u64)
    requires
        forall|p: int| 0 <= p < s.len() ==> (#[trigger] s[p]).0 > x,
    ensures
        spec_visible_upto(s, x) == Seq::<(u64, ValueView)>::empty(),
    decreases s.len(),
{
    if s.len() > 0 {
        lemma_visible_none(s.drop_last(), x);
    }
}

/// Cutting a sorted history at an LSN and deduplicating commute: the
/// canonical history at a cutoff can be read off the raw merged history
/// directly.
pub proof fn lemma_dedup_visible_commute(s: Seq<(u64, ValueView)>, x: u64)
    requires
        lsns_sorted(s),
    ensures
        spec_visible_upto(spec_dedup(s), x) == spec_dedup(spec_visible_upto(s, x)),
    decreases s.len(),
{
    if s.len() == 0 {
    } else if s.len() == 1 {
        assert(spec_dedup(s) == s);
        assert(s.drop_last() =~= Seq::<(u64, ValueView)>::empty());
        assert(spec_visible_upto(Seq::<(u64, ValueView)>::empty(), x) =~= Seq::<
            (u64, ValueView),
        >::empty());
        if s.last().0 <= x {
            assert(spec_visible_upto(s, x) =~= s);
            assert(spec_dedup(spec_visible_upto(s, x)) == spec_visible_upto(s, x));
        } else {
            assert(spec_visible_upto(s, x) =~= Seq::<(u64, ValueView)>::empty());
            assert(spec_visible_upto(spec_dedup(s), x) =~= Seq::<(u64, ValueView)>::empty());
        }
    } else {
        let st = s.drop_last();
        assert(lsns_sorted(st));
        lemma_dedup_visible_commute(st, x);
        lemma_dedup_shape(st);
        lemma_dedup_shape(s);
        let tie = s.last().0 == s[s.len() - 2].0;
        assert(st.last() == s[s.len() - 2]);
        if s.last().0 > x {
            // the last entry is invisible; so is any tie partner
            if tie {
                assert(spec_dedup(s) == spec_dedup(st));
            } else {
                assert(spec_dedup(s) == spec_dedup(st).push(s.last()));
                assert(spec_dedup(st).push(s.last()).drop_last() =~= spec_dedup(st));
                assert(spec_dedup(st).push(s.last()).last() == s.last());
                assert(spec_visible_upto(spec_dedup(st).push(s.last()), x) == spec_visible_upto(
                    spec_dedup(st),
                    x,
                ));
            }
            assert(spec_visible_upto(s, x) == spec_visible_upto(st, x));
        } else {
            // the last entry is visible
            assert(spec_visible_upto(s, x) == spec_visible_upto(st, x).push(s.last()));
            if tie {
                assert(spec_dedup(s) == spec_dedup(st));
                // its tie partner is the last visible entry of the rest
                assert(st.last().0 <= x);
                assert(spec_visible_upto(st, x).len() > 0);
                assert(spec_visible_upto(st, x).last() == st.last());
                let v = spec_visible_upto(st, x).push(s.last());
                assert(v.drop_last() =~= spec_visible_upto(st, x));
                assert(v.last() == s.last());
                assert(v[v.len() - 2] == spec_visible_upto(st, x).last());
                assert(spec_dedup(spec_visible_upto(st, x).push(s.last())) == spec_dedup(
                    spec_visible_upto(st, x),
                ));
            } else {
                assert(spec_dedup(s) == spec_dedup(st).push(s.last()));
                if spec_visible_upto(st, x).len() == 0 {
                    // everything before it is above the cutoff
                    if st.len() > 0 {
                        assert(!(st[0].0 <= x)) by {
                            if st[0].0 <= x {
                                lemma_visible_entry(st, x, 0);
                            }
                        }
                        assert(spec_dedup(st)[0] == st[0]);
                        assert forall|p: int|
                            0 <= p < spec_dedup(st).len() implies (#[trigger] spec_dedup(st)[p]).0
                            > x by {
                            if p > 0 {
                                assert(spec_dedup(st)[0].0 < spec_dedup(st)[p].0);
                            }
                        }
                        lemma_visible_none(spec_dedup(st), x);
                    }
                    assert(spec_visible_upto(spec_dedup(st), x) =~= Seq::<
                        (u64, ValueView),
                    >::empty());
                    assert(spec_visible_upto(s, x) =~= Seq::<(u64, ValueView)>::empty().push(
                        s.last(),
                    ));
                    assert(spec_dedup(spec_visible_upto(s, x)) =~= seq![s.last()]);
                    assert(spec_visible_upto(spec_dedup(s), x) =~= seq![s.last()]) by {
                        assert(spec_dedup(s) == spec_dedup(st).push(s.last()));
                        assert(spec_dedup(st).push(s.last()).drop_last() =~= spec_dedup(st));
                        assert(spec_dedup(st).push(s.last()).last() == s.last());
                        assert(spec_visible_upto(spec_dedup(st).push(s.last()), x)
                            == spec_visible_upto(spec_dedup(st), x).push(s.last()));
                    }
                } else {
                    // the previous visible entry is strictly earlier
                    lemma_visible_last(st, x);
                    assert(spec_visible_upto(st, x).last().0 <= st.last().0);
                    assert(st.last().0 < s.last().0);
                    let v = spec_visible_upto(st, x).push(s.last());
                    assert(v.drop_last() =~= spec_visible_upto(st, x));
                    assert(v.last() == s.last());
                    assert(v[v.len() - 2] == spec_visible_upto(st, x).last());
                    assert(spec_dedup(v) == spec_dedup(spec_visible_upto(st, x)).push(s.last()));
                    assert(spec_dedup(st).push(s.last()).drop_last() =~= spec_dedup(st));
                    assert(spec_dedup(st).push(s.last()).last() == s.last());
                    assert(spec_visible_upto(spec_dedup(st).push(s.last()), x) == spec_visible_upto(
                        spec_dedup(st),
                        x,
                    ).push(s.last()));
                }
            }
        }
    }
}

/// A bucket strictly above `lo` is empty when the whole history sits at
/// or below `lo`.
proof fn lemma_bucket_all_low(s: Seq<(u64, ValueView)>, lo: u64, hi: Option<u64>)
    requires
        forall|p: int| 0 <= p < s.len() ==> (#[trigger] s[p]).0 <= lo,
    ensures
        spec_bucket(s, Some(lo), hi) == Seq::<(u64, ValueView)>::empty(),
    decreases s.len(),
{
    if s.len() > 0 {
        lemma_bucket_all_low(s.drop_last(), lo, hi);
    }
}

/// A history entirely at or below the cutoff is fully visible.
proof fn lemma_visible_complete(s: Seq<(u64, ValueView)>, lo: u64)
    requires
        forall|p: int| 0 <= p < s.len() ==> (#[trigger] s[p]).0 <= lo,
    ensures
        spec_visible_upto(s, lo) == s,
    decreases s.len(),
{
    if s.len() > 0 {
        lemma_visible_complete(s.drop_last(), lo);
        assert(spec_visible_upto(s, lo) =~= s);
    }
}

/// A sorted history splits at a cutoff: what is visible up to `hi` is
/// what is visible up to `lo` plus the `(lo, hi]` bucket.
proof fn lemma_visible_split(s: Seq<(u64, ValueView)>, lo: u64, hi: u64)
    requires
        lo <= hi,
        lsns_sorted(s),
    ensures
        spec_visible_upto(s, hi) == spec_visible_upto(s, lo) + spec_bucket(s, Some(lo), Some(hi)),
    decreases s.len(),
{
    if s.len() == 0 {
        assert(spec_visible_upto(s, lo) + spec_bucket(s, Some(lo), Some(hi)) =~= Seq::<
            (u64, ValueView),
        >::empty());
    } else {
        assert(lsns_sorted(s.drop_last()));
        lemma_visible_split(s.drop_last(), lo, hi);
        if s.last().0 <= lo {
            assert forall|p: int| 0 <= p < s.len() implies (#[trigger] s[p]).0 <= lo by {
                if p < s.len() - 1 {
                    assert(s[p].0 <= s.last().0);
                }
            }
            lemma_bucket_all_low(s, lo, Some(hi));
            lemma_visible_complete(s, lo);
            lemma_visible_complete(s, hi);
            assert(spec_visible_upto(s, hi) =~= spec_visible_upto(s, lo) + spec_bucket(
                s,
                Some(lo),
                Some(hi),
            ));
        } else {
            assert(spec_visible_upto(s, hi) =~= spec_visible_upto(s, lo) + spec_bucket(
                s,
                Some(lo),
                Some(hi),
            ));
        }
    }
}

/// The whole history is what is visible up to any cutoff plus what lies
/// above it.
proof fn lemma_visible_all(s: Seq<(u64, ValueView)>, lo: u64)
    requires
        lsns_sorted(s),
    ensures
        s == spec_visible_upto(s, lo) + spec_bucket(s, Some(lo), None),
    decreases s.len(),
{
    if s.len() == 0 {
        assert(spec_visible_upto(s, lo) + spec_bucket(s, Some(lo), None::<u64>) =~= Seq::<
            (u64, ValueView),
        >::empty());
    } else {
        assert(lsns_sorted(s.drop_last()));
        lemma_visible_all(s.drop_last(), lo);
        if s.last().0 <= lo {
            assert forall|p: int| 0 <= p < s.len() implies (#[trigger] s[p]).0 <= lo by {
                if p < s.len() - 1 {
                    assert(s[p].0 <= s.last().0);
                }
            }
            lemma_bucket_all_low(s, lo, None);
            lemma_visible_complete(s, lo);
            assert(s =~= spec_visible_upto(s, lo) + spec_bucket(s, Some(lo), None::<u64>));
        } else {
            assert(spec_bucket(s, Some(lo), None) == spec_bucket(
                s.drop_last(),
                Some(lo),
                None,
            ).push(s.last()));
            assert(spec_visible_upto(s, lo) == spec_visible_upto(s.drop_last(), lo));
            assert(s =~= (spec_visible_upto(s.drop_last(), lo) + spec_bucket(
                s.drop_last(),
                Some(lo),
                None,
            )).push(s.last()));
            assert((spec_visible_upto(s.drop_last(), lo) + spec_bucket(
                s.drop_last(),
                Some(lo),
                None,
            )).push(s.last()) =~= spec_visible_upto(s.drop_last(), lo) + spec_bucket(
                s.drop_last(),
                Some(lo),
                None,
            ).push(s.last()));
            assert(s =~= spec_visible_upto(s, lo) + spec_bucket(s, Some(lo), None::<u64>));
        }
    }
}

/// The first bucket is exactly what is visible up to its cutoff.
proof fn lemma_first_bucket(s: Seq<(u64, ValueView)>, hi: u64)
    ensures
        spec_bucket(s, None, Some(hi)) == spec_visible_upto(s, hi),
    decreases s.len(),
{
    if s.len() > 0 {
        lemma_first_bucket(s.drop_last(), hi);
    }
}

/// A bucket bounded above by `hi` is empty when the whole history sits
/// strictly above `hi`.
proof fn lemma_bucket_all_high(s: Seq<(u64, ValueView)>, lo: Option<u64>, hi: u64)
    requires
        forall|p: int| 0 <= p < s.len() ==> (#[trigger] s[p]).0 > hi,
    ensures
        spec_bucket(s, lo, Some(hi)) == Seq::<(u64, ValueView)>::empty(),
    decreases s.len(),
{
    if s.len() > 0 {
        lemma_bucket_all_high(s.drop_last(), lo, hi);
    }
}

/// Anything visible in a sorted history starts at its first entry.
proof fn lemma_visible_first(s: Seq<(u64, ValueView)>, x: u64)
    requires
        lsns_sorted(s),
        spec_visible_upto(s, x).len() > 0,
    ensures
        s.len() > 0 && spec_visible_upto(s, x)[0] == s[0],
    decreases s.len(),
{
    if s.len() > 0 {
        assert(lsns_sorted(s.drop_last()));
        if spec_visible_upto(s.drop_last(), x).len() > 0 {
            lemma_visible_first(s.drop_last(), x);
        } else {
            assert(s.last().0 <= x);
            if s.len() > 1 {
                assert(s[0].0 <= s.last().0);
                lemma_visible_entry(s.drop_last(), x, 0);
            }
        }
    }
}

/// An entry at or below the cutoff makes something visible.
proof fn lemma_visible_entry(s: Seq<(u64, ValueView)>, x: u64, p: int)
    requires
        0 <= p < s.len(),
        s[p].0 <= x,
    ensures
        spec_visible_upto(s, x).len() > 0,
    decreases s.len(),
{
    if p < s.len() - 1 {
        lemma_visible_entry(s.drop_last(), x, p);
    }
}

/// Deduplicate a key's history: of two entries at one LSN — an image and
/// the record the merge ordered after it — keep the image.
fn dedup_history(full_history: &Vec<(u128, u64, Value)>) -> (r: Vec<(u64, Value)>)
    ensures
        lv_view(r@) == spec_dedup(triples_view(full_history@)),
{
    let mut out: Vec<(u64, Value)> = Vec::new();
    let mut t: usize = 0;
    proof {
        assert(triples_view(full_history@.take(0)) =~= Seq::<(u64, ValueView)>::empty());
        assert(lv_view(out@) =~= spec_dedup(triples_view(full_history@.take(0))));
    }
    while t < full_history.len()
        invariant
            t <= full_history@.len(),
            lv_view(out@) == spec_dedup(triples_view(full_history@.take(t as int))),
            t > 0 ==> out@.len() > 0,
            out@.len() > 0 && t > 0 ==> out@.last().0 == full_history@[t - 1].1,
        decreases full_history@.len() - t,
    {
        let (_, lsn, ref val) = full_history[t];
        let ghost pre = triples_view(full_history@.take(t as int));
        let ghost cur = triples_view(full_history@.take(t + 1));
        proof {
            assert(cur.drop_last() =~= pre);
            assert(cur.last() == (lsn, full_history@[t as int].2@));
        }
        if t > 0 && out[out.len() - 1].0 == lsn {
            // same LSN as the previous entry: the earlier (image) wins
            proof {
                assert(pre.last().0 == lsn);
                assert(spec_dedup(cur) == spec_dedup(pre));
            }
        } else {
            let ghost out_before = out@;
            out.push((lsn, val.clone()));
            proof {
                if t > 0 {
                    assert(pre.last().0 == full_history@[t - 1].1);
                    assert(cur[cur.len() - 2].0 != lsn);
                }
                assert(lv_view(out@) =~= lv_view(out_before).push((lsn, full_history@[t as int].2@)));
                assert(lv_view(out@) =~= spec_dedup(cur));
            }
        }
        t = t + 1;
    }
    proof {
        assert(full_history@.take(full_history@.len() as int) =~= full_history@);
    }
    out
}

/// The lower split bound of bucket `i`: none for the first bucket, the
/// previous split LSN after that.
pub open spec fn lo_of(splits: Seq<u64>, i: int) -> Option<u64> {
    if i == 0 {
        None
    } else {
        Some(splits[i - 1])
    }
}

/// Cut a sorted history into `splits.len() + 1` buckets: bucket `i` holds
/// the entries with `splits[i-1] < lsn <= splits[i]`, the final bucket
/// everything above the last split.
fn bucketize(history: &Vec<(u64, Value)>, splits: &Vec<u64>) -> (r: Vec<Vec<(u64, Value)>>)
    requires
        lsns_sorted(lv_view(history@)),
        forall|p: int, q: int|
            0 <= p < q < splits@.len() ==> (#[trigger] splits@[p]) <= (#[trigger] splits@[q]),
    ensures
        r@.len() == splits@.len() + 1,
        forall|i: int|
            0 <= i < splits@.len() ==> lv_view((#[trigger] r@[i])@) == spec_bucket(
                lv_view(history@),
                lo_of(splits@, i),
                Some(splits@[i]),
            ),
        lv_view((r@[splits@.len() as int])@) == spec_bucket(
            lv_view(history@),
            lo_of(splits@, splits@.len() as int),
            None,
        ),
{
    let ghost hv = lv_view(history@);
    let mut out: Vec<Vec<(u64, Value)>> = Vec::new();
    let mut cur: Vec<(u64, Value)> = Vec::new();
    let mut idx: usize = 0;
    let mut t: usize = 0;
    proof {
        assert(hv.take(0) =~= Seq::<(u64, ValueView)>::empty());
        assert(lv_view(cur@) =~= spec_bucket(hv.take(0), lo_of(splits@, 0), bucket_hi(splits@, 0)));
    }
    while t < history.len()
        invariant
            t <= history@.len(),
            idx <= splits@.len(),
            out@.len() == idx,
            hv == lv_view(history@),
            lsns_sorted(hv),
            forall|p: int, q: int|
                0 <= p < q < splits@.len() ==> (#[trigger] splits@[p]) <= (#[trigger] splits@[q]),
            forall|j: int|
                0 <= j < idx ==> lv_view((#[trigger] out@[j])@) == spec_bucket(
                    hv,
                    lo_of(splits@, j),
                    Some(splits@[j]),
                ),
            lv_view(cur@) == spec_bucket(hv.take(t as int), lo_of(splits@, idx as int), bucket_hi(splits@, idx as int)),
            idx < splits@.len() ==> forall|t0: int|
                0 <= t0 < t ==> (#[trigger] hv[t0]).0 <= splits@[idx as int],
            idx > 0 ==> exists|t0: int| 0 <= t0 < t && (#[trigger] hv[t0]).0 > splits@[idx - 1],
        decreases history@.len() - t,
    {
        let (lsn, ref val) = history[t];
        let ghost idx_start = idx;
        proof {
            assert forall|t0: int| 0 <= t0 < t implies (#[trigger] hv[t0]).0 <= lsn by {
                assert(hv[t0].0 <= hv[t as int].0);
            }
        }
        while idx < splits.len() && lsn > splits[idx]
            invariant
                idx_start <= idx <= splits@.len(),
                t < history@.len(),
                lsn == hv[t as int].0,
                out@.len() == idx,
                hv == lv_view(history@),
                lsns_sorted(hv),
                forall|p: int, q: int|
                    0 <= p < q < splits@.len() ==> (#[trigger] splits@[p]) <= (
                    #[trigger] splits@[q]),
                forall|j: int|
                    0 <= j < idx ==> lv_view((#[trigger] out@[j])@) == spec_bucket(
                        hv,
                        lo_of(splits@, j),
                        Some(splits@[j]),
                    ),
                lv_view(cur@) == spec_bucket(hv.take(t as int), lo_of(splits@, idx as int), bucket_hi(splits@, idx as int)),
                idx_start < splits@.len() ==> forall|t0: int|
                    0 <= t0 < t ==> (#[trigger] hv[t0]).0 <= splits@[idx_start as int],
                idx > idx_start ==> lsn > splits@[idx - 1],
                forall|t0: int| 0 <= t0 < t ==> (#[trigger] hv[t0]).0 <= lsn,
                idx > 0 && idx == idx_start ==> exists|t0: int|
                    0 <= t0 < t && (#[trigger] hv[t0]).0 > splits@[idx - 1],
            decreases splits@.len() - idx,
        {
            // every entry at or below this split has been seen: close the
            // bucket
            proof {
                assert(hv =~= hv.take(t as int) + hv.skip(t as int));
                lemma_bucket_concat(
                    hv.take(t as int),
                    hv.skip(t as int),
                    lo_of(splits@, idx as int),
                    Some(splits@[idx as int]),
                );
                assert forall|p: int| 0 <= p < hv.skip(t as int).len() implies (
                #[trigger] hv.skip(t as int)[p]).0 > splits@[idx as int] by {
                    assert(hv.skip(t as int)[p] == hv[t + p]);
                    assert(hv[t as int].0 <= hv[t + p].0);
                }
                lemma_bucket_all_high(hv.skip(t as int), lo_of(splits@, idx as int), splits@[idx as int]);
                assert(lv_view(cur@) =~= spec_bucket(hv, lo_of(splits@, idx as int), Some(splits@[idx as int])));
            }
            out.push(cur);
            cur = Vec::new();
            idx = idx + 1;
            proof {
                assert forall|p: int| 0 <= p < hv.take(t as int).len() implies !((
                #[trigger] hv.take(t as int)[p]).0 > splits@[idx - 1]) by {
                    assert(hv.take(t as int)[p] == hv[p]);
                    assert(hv[p].0 <= splits@[idx_start as int]);
                    if idx_start < idx - 1 {
                        assert(splits@[idx_start as int] <= splits@[idx - 1]);
                    }
                }
                lemma_bucket_none_qualifies(hv.take(t as int), splits@[idx - 1], bucket_hi(splits@, idx as int));
                assert(lv_view(cur@) =~= spec_bucket(hv.take(t as int), lo_of(splits@, idx as int), bucket_hi(splits@, idx as int)));
            }
        }
        // the entry belongs to the current bucket
        let ghost cur_before = cur@;
        cur.push((lsn, val.clone()));
        proof {
            assert(hv.take(t + 1).drop_last() =~= hv.take(t as int));
            assert(hv.take(t + 1).last() == hv[t as int]);
            if idx > 0 {
                if idx > idx_start {
                    assert(hv[t as int].0 > splits@[idx - 1]);
                } else {
                    let t0 = choose|t0: int| 0 <= t0 < t && (#[trigger] hv[t0]).0 > splits@[idx - 1];
                    assert(hv[t0].0 <= hv[t as int].0);
                }
            }
            assert(lv_view(cur@) =~= lv_view(cur_before).push(hv[t as int]));
            assert(lv_view(cur@) =~= spec_bucket(hv.take(t + 1), lo_of(splits@, idx as int), bucket_hi(splits@, idx as int)));
        }
        t = t + 1;
    }
    proof {
        assert(hv.take(history@.len() as int) =~= hv);
    }
    // close the current and any remaining empty buckets
    while idx < splits.len()
        invariant
            idx <= splits@.len(),
            out@.len() == idx,
            hv == lv_view(history@),
            forall|p: int, q: int|
                0 <= p < q < splits@.len() ==> (#[trigger] splits@[p]) <= (#[trigger] splits@[q]),
            forall|j: int|
                0 <= j < idx ==> lv_view((#[trigger] out@[j])@) == spec_bucket(
                    hv,
                    lo_of(splits@, j),
                    Some(splits@[j]),
                ),
            lv_view(cur@) == spec_bucket(hv, lo_of(splits@, idx as int), bucket_hi(splits@, idx as int)),
            idx < splits@.len() ==> forall|t0: int|
                0 <= t0 < hv.len() ==> (#[trigger] hv[t0]).0 <= splits@[idx as int],
        decreases splits@.len() - idx,
    {
        out.push(cur);
        cur = Vec::new();
        idx = idx + 1;
        proof {
            lemma_bucket_none_qualifies(hv, splits@[idx - 1], bucket_hi(splits@, idx as int));
            assert(lv_view(cur@) =~= spec_bucket(hv, lo_of(splits@, idx as int), bucket_hi(splits@, idx as int)));
        }
    }
    out.push(cur);
    out
}

/// The upper split bound of bucket `i`: the split LSN, none for the final
/// bucket.
pub open spec fn bucket_hi(splits: Seq<u64>, i: int) -> Option<u64> {
    if i < splits.len() {
        Some(splits[i])
    } else {
        None
    }
}

/// A bucket over entries none of which clear its lower bound is empty.
proof fn lemma_bucket_none_qualifies(s: Seq<(u64, ValueView)>, lo: u64, hi: Option<u64>)
    requires
        forall|p: int| 0 <= p < s.len() ==> !((#[trigger] s[p]).0 > lo),
    ensures
        spec_bucket(s, Some(lo), hi) == Seq::<(u64, ValueView)>::empty(),
    decreases s.len(),
{
    if s.len() > 0 {
        lemma_bucket_none_qualifies(s.drop_last(), lo, hi);
    }
}

/// Reconstruct the page that a history replays to. The history must start
/// from a self-initializing value, so the replay is defined.
pub fn reconstruct_page(history: &Vec<(u64, Value)>) -> (r: Vec<u8>)
    requires
        replay_values(lv_values(lv_view(history@))) is Some,
    ensures
        Some(r@) == replay_values(lv_values(lv_view(history@))),
{
    let mut page: Vec<u8> = Vec::new();
    let mut have: bool = false;
    let mut t: usize = 0;
    proof {
        assert(lv_values(lv_view(history@.take(0))) =~= Seq::<ValueView>::empty());
    }
    while t < history.len()
        invariant
            t <= history@.len(),
            replay_values(lv_values(lv_view(history@))) is Some,
            have ==> replay_values(lv_values(lv_view(history@.take(t as int)))) == Some(page@),
            !have ==> replay_values(lv_values(lv_view(history@.take(t as int)))) is None && page@
                == Seq::<u8>::empty(),
        decreases history@.len() - t,
    {
        let ghost prevals = lv_values(lv_view(history@.take(t as int)));
        let ghost curvals = lv_values(lv_view(history@.take(t + 1)));
        proof {
            assert(curvals.drop_last() =~= prevals);
            assert(curvals.last() == history@[t as int].1@);
        }
        let (_, ref val) = history[t];
        match val {
            Value::Image(b) => {
                page = crate::value::clone_bytes(b);
                have = true;
            }
            Value::WalRecord(rec) => {
                if rec.will_init {
                    page = crate::value::clone_bytes(&rec.data);
                    have = true;
                } else {
                    if have {
                        crate::value::append_bytes(&mut page, &rec.data);
                    } else {
                        // a record with no base: replay of this prefix is
                        // undefined, and so then is the whole history's
                        proof {
                            assert(curvals =~= lv_values(lv_view(history@)).take(t + 1));
                            lemma_replay_none_extends(
                                curvals,
                                lv_values(lv_view(history@)),
                                t + 1,
                            );
                        }
                    }
                }
            }
        }
        t = t + 1;
    }
    proof {
        assert(history@.take(history@.len() as int) =~= history@);
        if !have {
            assert(false);
        }
    }
    page
}

/// The key's canonical history: its merged history with the image kept
/// of any image/record pair at one LSN.
pub open spec fn spec_key_history(full_history: Seq<(u128, u64, Value)>) -> Seq<(u64, ValueView)> {
    spec_dedup(triples_view(full_history))
}

/// The ancestor base image as a one-entry history.
pub open spec fn base_seq(base: Option<(u64, Vec<u8>)>) -> Seq<(u64, ValueView)> {
    match base {
        Some(b) => seq![(b.0, ValueView::Image(b.1@))],
        None => Seq::empty(),
    }
}

/// Whether the history starts self-contained: an ancestor image was
/// supplied, or the history is empty or opens with a self-initializing
/// value. GC-compaction of such a history cannot fail.
pub open spec fn spec_has_base(
    full_history: Seq<(u128, u64, Value)>,
    base: Option<(u64, Vec<u8>)>,
) -> bool {
    ||| base is Some
    ||| full_history.len() == 0
    ||| full_history[0].2@.will_init()
}

/// The logs of the below-horizon cutoffs, concatenated in order.
pub open spec fn concat_logs(below: Seq<(u64, KeyLogAtLsn)>) -> Seq<(u64, ValueView)>
    decreases below.len(),
{
    if below.len() == 0 {
        Seq::empty()
    } else {
        concat_logs(below.drop_last()) + lv_view(below.last().1.0@)
    }
}

/// Copy a run of logs, preserving LSNs and values.
fn clone_logs(v: &Vec<(u64, Value)>) -> (r: Vec<(u64, Value)>)
    ensures
        lv_view(r@) == lv_view(v@),
{
    let mut out: Vec<(u64, Value)> = Vec::new();
    let mut t: usize = 0;
    proof {
        assert(lv_view(out@) =~= lv_view(v@).take(0));
    }
    while t < v.len()
        invariant
            t <= v@.len(),
            lv_view(out@) == lv_view(v@).take(t as int),
        decreases v@.len() - t,
    {
        let (lsn, ref val) = v[t];
        let ghost out_before = out@;
        out.push((lsn, val.clone()));
        proof {
            assert(lv_view(out@) =~= lv_view(out_before).push((lsn, v@[t as int].1@)));
            assert(lv_view(out@) =~= lv_view(v@).take(t + 1));
        }
        t = t + 1;
    }
    proof {
        assert(lv_view(v@).take(v@.len() as int) =~= lv_view(v@));
    }
    out
}

/// Append a copy of `src`'s logs to `dst`.
fn append_logs(dst: &mut Vec<(u64, Value)>, src: &Vec<(u64, Value)>)
    ensures
        lv_view(final(dst)@) == lv_view(old(dst)@) + lv_view(src@),
{
    let mut b: usize = 0;
    proof {
        assert(lv_view(dst@) =~= lv_view(old(dst)@) + lv_view(src@).take(0));
    }
    while b < src.len()
        invariant
            b <= src@.len(),
            lv_view(dst@) == lv_view(old(dst)@) + lv_view(src@).take(b as int),
        decreases src@.len() - b,
    {
        let (lsn, ref val) = src[b];
        let ghost dst_before = dst@;
        dst.push((lsn, val.clone()));
        proof {
            assert(lv_view(dst@) =~= lv_view(dst_before).push((lsn, src@[b as int].1@)));
            assert(lv_view(dst@) =~= lv_view(old(dst)@) + lv_view(src@).take(b + 1));
        }
        b = b + 1;
    }
    proof {
        assert(lv_view(src@).take(src@.len() as int) =~= lv_view(src@));
    }
}

/// Only retain the items after the last self-initializing value: its
/// replay is unchanged, and when any such value exists the history now
/// opens with one.
fn truncate_to_last_init(rh: &mut Vec<(u64, Value)>)
    ensures
        replay_values(lv_values(lv_view(final(rh)@))) == replay_values(
            lv_values(lv_view(old(rh)@)),
        ),
        old(rh)@.len() > 0 <==> final(rh)@.len() > 0,
        (exists|p: int| 0 <= p < old(rh)@.len() && (#[trigger] old(rh)@[p]).1@.will_init()) ==> (
        final(rh)@.len() > 0 && final(rh)@[0].1@.will_init()),
        !(exists|p: int| 0 <= p < old(rh)@.len() && (#[trigger] old(rh)@[p]).1@.will_init())
            ==> final(rh)@ == old(rh)@,
{
    let mut found: bool = false;
    let mut cut: usize = 0;
    let mut scan: usize = rh.len();
    while scan > 0 && !found
        invariant
            scan <= rh@.len(),
            rh@ == old(rh)@,
            found ==> cut < rh@.len() && rh@[cut as int].1@.will_init(),
            !found ==> forall|p: int|
                scan <= p < rh@.len() ==> !(#[trigger] rh@[p]).1@.will_init(),
        decreases scan,
    {
        scan = scan - 1;
        let (_, ref val) = rh[scan];
        if val.will_init() {
            found = true;
            cut = scan;
        }
    }
    if found && cut > 0 {
        let ghost pre = rh@;
        let tail = rh.split_off(cut);
        *rh = tail;
        proof {
            assert(lv_view(rh@) =~= lv_view(pre).skip(cut as int));
            assert(lv_values(lv_view(rh@)) =~= lv_values(lv_view(pre)).skip(cut as int));
            crate::value::lemma_replay_truncate(lv_values(lv_view(pre)), cut as int);
            assert(rh@[0] == pre[cut as int]);
        }
    }
}

/// The image-emission rule: the lowest bucket is always materialized
/// when no ancestor image exists, the above-horizon bucket never is, and
/// any other bucket is once at least `threshold` records accumulated
/// since the last image.
pub open spec fn spec_gen_image(
    i: int,
    batch_cnt: int,
    has_ancestor: bool,
    records: int,
    threshold: int,
) -> bool {
    if i == 0 && !has_ancestor {
        true
    } else if i == batch_cnt - 1 {
        false
    } else {
        records >= threshold
    }
}

/// Records accumulated once bucket `i` has been appended, counting from
/// the last materialized image.
pub open spec fn spec_records_since(
    dh: Seq<(u64, ValueView)>,
    splits: Seq<u64>,
    has_ancestor: bool,
    threshold: int,
    i: int,
) -> int
    decreases i + 1,
{
    let bucket_len = spec_bucket(dh, lo_of(splits, i), bucket_hi(splits, i)).len() as int;
    if i <= 0 {
        bucket_len
    } else {
        let prev = spec_records_since(dh, splits, has_ancestor, threshold, i - 1);
        (if spec_gen_image(i - 1, splits.len() as int + 1, has_ancestor, prev, threshold) && prev
            > 0 {
            0int
        } else {
            prev
        }) + bucket_len
    }
}

/// What cutoff `j` of the retention holds, exactly: a single image —
/// the page the history replays to at the cutoff — when the emission
/// rule fires there, the bucket's deltas verbatim otherwise.
pub open spec fn spec_retention_shape(
    below: Seq<(u64, KeyLogAtLsn)>,
    dh: Seq<(u64, ValueView)>,
    bs: Seq<(u64, ValueView)>,
    splits: Seq<u64>,
    has_ancestor: bool,
    threshold: int,
    j: int,
) -> bool {
    let recs = spec_records_since(dh, splits, has_ancestor, threshold, j);
    if spec_gen_image(j, splits.len() as int + 1, has_ancestor, recs, threshold) && recs > 0 {
        exists|img: Seq<u8>|
            lv_view(below[j].1.0@) == seq![(splits[j], ValueView::Image(img))] && Some(img)
                == replay_values(lv_values(bs + spec_visible_upto(dh, splits[j])))
    } else {
        lv_view(below[j].1.0@) == spec_bucket(dh, lo_of(splits, j), Some(splits[j]))
    }
}

/// Records still pending once bucket `i`'s emission decision was taken:
/// reset when an image went out, carried forward otherwise.
pub open spec fn spec_records_after(
    dh: Seq<(u64, ValueView)>,
    splits: Seq<u64>,
    has_ancestor: bool,
    threshold: int,
    i: int,
) -> int {
    let recs = spec_records_since(dh, splits, has_ancestor, threshold, i);
    if spec_gen_image(i, splits.len() as int + 1, has_ancestor, recs, threshold) && recs > 0 {
        0int
    } else {
        recs
    }
}

/// Whether some value of the history initializes its page by itself.
pub open spec fn spec_history_has_init(s: Seq<(u128, u64, Value)>) -> bool {
    exists|p: int| 0 <= p < s.len() && (#[trigger] s[p]).2@.will_init()
}

/// An initializing entry of a bucket is one of the history's.
proof fn lemma_bucket_init(s: Seq<(u64, ValueView)>, lo: Option<u64>, hi: Option<u64>)
    requires
        has_init(spec_bucket(s, lo, hi)),
    ensures
        has_init(s),
    decreases s.len(),
{
    if s.len() > 0 {
        let b = spec_bucket(s, lo, hi);
        let p = choose|p: int| 0 <= p < b.len() && (#[trigger] b[p]).1.will_init();
        if (lo is None || s.last().0 > lo.unwrap()) && (hi is None || s.last().0 <= hi.unwrap())
            && p == b.len() - 1 {
            assert(s[s.len() - 1].1.will_init());
        } else {
            lemma_bucket_init(s.drop_last(), lo, hi);
            let q = choose|q: int|
                0 <= q < s.drop_last().len() && (#[trigger] s.drop_last()[q]).1.will_init();
            assert(s[q].1.will_init());
        }
    }
}

/// An initializing entry survives deduplication only if one was there.
proof fn lemma_dedup_init(s: Seq<(u64, ValueView)>)
    requires
        has_init(spec_dedup(s)),
    ensures
        has_init(s),
    decreases s.len(),
{
    if s.len() > 1 {
        let d = spec_dedup(s);
        let p = choose|p: int| 0 <= p < d.len() && (#[trigger] d[p]).1.will_init();
        if s.last().0 != s[s.len() - 2].0 && p == d.len() - 1 {
            assert(s[s.len() - 1].1.will_init());
        } else {
            lemma_dedup_init(s.drop_last());
            let q = choose|q: int|
                0 <= q < s.drop_last().len() && (#[trigger] s.drop_last()[q]).1.will_init();
            assert(s[q].1.will_init());
        }
    }
}

/// What is visible never outnumbers the history.
proof fn lemma_visible_len(s: Seq<(u64, ValueView)>, x: u64)
    ensures
        spec_visible_upto(s, x).len() <= s.len(),
    decreases s.len(),
{
    if s.len() > 0 {
        lemma_visible_len(s.drop_last(), x);
    }
}

/// Take a list of deltas and images for one key, a GC horizon, and all
/// retain LSNs below it; produce the deltas and base images to place at
/// each retain LSN and at the horizon.
///
/// The history is cut at every retain LSN and at the horizon. Of an
/// image/record pair at one LSN the image is kept. A cutoff's bucket is
/// emitted either verbatim or — for the lowest bucket when no ancestor
/// image exists, and whenever too many records accumulated since the last
/// image — as one image reconstructed at the cutoff; everything above the
/// horizon is kept verbatim. At every cutoff, replaying what was emitted
/// up to it (on top of the ancestor image, if any) yields exactly the
/// page that the original history yields there: retention changes no
/// reconstructed value.
///
/// Fails with `IncompleteHistory` only when no ancestor image was
/// supplied and the history does not start self-contained.
#[verifier::rlimit(100)]
pub fn generate_key_retention(
    key: u128,
    full_history: &Vec<(u128, u64, Value)>,
    horizon: u64,
    retain_lsn_below_horizon: &Vec<u64>,
    delta_threshold_cnt: usize,
    base_img_from_ancestor: Option<(u64, Vec<u8>)>,
) -> (r: Result<KeyHistoryRetention, EngineError>)
    requires
        forall|p: int| 0 <= p < full_history@.len() ==> (#[trigger] full_history@[p]).0 == key,
        lsns_sorted(triples_view(full_history@)),
        forall|p: int, q: int|
            0 <= p < q < retain_lsn_below_horizon@.len() ==> (
            #[trigger] retain_lsn_below_horizon@[p]) <= (#[trigger] retain_lsn_below_horizon@[q]),
        forall|p: int|
            0 <= p < retain_lsn_below_horizon@.len() ==> (#[trigger] retain_lsn_below_horizon@[p])
                < horizon,
        base_img_from_ancestor is Some ==> {
            &&& forall|p: int|
                0 <= p < full_history@.len() ==> base_img_from_ancestor.unwrap().0 < (
                #[trigger] full_history@[p]).1
            &&& forall|p: int|
                0 <= p < retain_lsn_below_horizon@.len() ==> base_img_from_ancestor.unwrap().0 <= (
                #[trigger] retain_lsn_below_horizon@[p])
            &&& base_img_from_ancestor.unwrap().0 <= horizon
        },
        delta_threshold_cnt >= 1,
    ensures
        match r {
            Ok(kr) => {
                let dh = spec_key_history(full_history@);
                let bs = base_seq(base_img_from_ancestor);
                &&& kr.below_horizon@.len() == retain_lsn_below_horizon@.len() + 1
                &&& forall|j: int|
                    0 <= j < kr.below_horizon@.len() ==> (#[trigger] kr.below_horizon@[j]).0 == (
                    if j < retain_lsn_below_horizon@.len() {
                        retain_lsn_below_horizon@[j]
                    } else {
                        horizon
                    })
                &&& forall|j: int|
                    0 <= j < kr.below_horizon@.len() ==> replay_values(
                        lv_values(bs + concat_logs(#[trigger] kr.below_horizon@.take(j + 1))),
                    ) == replay_values(
                        lv_values(bs + spec_visible_upto(dh, kr.below_horizon@[j].0)),
                    )
                &&& lv_view(kr.above_horizon.0@) == spec_bucket(dh, Some(horizon), None)
                &&& forall|j: int|
                    0 <= j < kr.below_horizon@.len() ==> lv_view(
                        (#[trigger] kr.below_horizon@[j]).1.0@,
                    ) == spec_bucket(
                        dh,
                        lo_of(kr.below_horizon@.map_values(|c: (u64, KeyLogAtLsn)| c.0), j),
                        Some(kr.below_horizon@[j].0),
                    ) || exists|img: Seq<u8>|
                        lv_view(kr.below_horizon@[j].1.0@) == seq![
                            (kr.below_horizon@[j].0, ValueView::Image(img)),
                        ]
                &&& forall|j: int|
                    0 <= j < kr.below_horizon@.len() ==> #[trigger] spec_retention_shape(
                        kr.below_horizon@,
                        dh,
                        bs,
                        retain_lsn_below_horizon@.push(horizon),
                        base_img_from_ancestor is Some,
                        delta_threshold_cnt as int,
                        j,
                    )
            },
            Err(e) => e == EngineError::IncompleteHistory && !spec_has_base(
                full_history@,
                base_img_from_ancestor,
            ),
        },
        spec_has_base(full_history@, base_img_from_ancestor) ==> r is Ok,
        base_img_from_ancestor is None && full_history@.len() > 0 && !spec_history_has_init(
            full_history@,
        ) ==> r is Err,
        r is Err ==> !has_init(spec_first_visible(
            spec_key_history(full_history@),
            retain_lsn_below_horizon@.push(horizon),
        )),
        !spec_has_base(full_history@, base_img_from_ancestor) && !has_init(spec_first_visible(
            spec_key_history(full_history@),
            retain_lsn_below_horizon@.push(horizon),
        )) ==> r is Err,
{
    let ghost dh = spec_key_history(full_history@);
    let ghost bs = base_seq(base_img_from_ancestor);
    let has_ancestor = base_img_from_ancestor.is_some();
    // canonical history and cut points
    let deduped = dedup_history(full_history);
    let mut splits: Vec<u64> = Vec::new();
    let mut si: usize = 0;
    while si < retain_lsn_below_horizon.len()
        invariant
            si <= retain_lsn_below_horizon@.len(),
            splits@ == retain_lsn_below_horizon@.take(si as int),
        decreases retain_lsn_below_horizon@.len() - si,
    {
        splits.push(retain_lsn_below_horizon[si]);
        proof {
            assert(splits@ =~= retain_lsn_below_horizon@.take(si + 1));
        }
        si = si + 1;
    }
    proof {
        assert(retain_lsn_below_horizon@.take(retain_lsn_below_horizon@.len() as int)
            =~= retain_lsn_below_horizon@);
    }
    splits.push(horizon);
    proof {
        lemma_dedup_shape(triples_view(full_history@));
        assert(lv_view(deduped@) == dh);
        if full_history@.len() > 0 {
            assert(triples_view(full_history@)[0] == (full_history@[0].1, full_history@[0].2@));
        }
    }
    let dedup_len: usize = deduped.len();
    let buckets = bucketize(&deduped, &splits);
    // replay state: the ancestor image, then each bucket in turn
    let mut rh: Vec<(u64, Value)> = Vec::new();
    match &base_img_from_ancestor {
        Some((blsn, bimg)) => {
            rh.push((*blsn, Value::Image(crate::value::clone_bytes(bimg))));
            proof {
                assert(lv_view(rh@) =~= bs);
            }
        }
        None => {
            proof {
                assert(lv_view(rh@) =~= bs);
            }
        }
    }
    let mut below: Vec<(u64, KeyLogAtLsn)> = Vec::new();
    let mut above: KeyLogAtLsn = KeyLogAtLsn(Vec::new());
    let mut records_since_last_image: usize = 0;
    let ghost mut done: Seq<(u64, ValueView)> = bs;
    let mut i: usize = 0;
    proof {
        assert(concat_logs(below@) =~= Seq::<(u64, ValueView)>::empty());
        assert(bs + concat_logs(below@) =~= bs);
        assert(bs + Seq::<(u64, ValueView)>::empty() =~= bs);
    }
    while i < buckets.len()
        invariant
            i <= buckets@.len(),
            buckets@.len() == splits@.len() + 1,
            splits@.len() == retain_lsn_below_horizon@.len() + 1,
            splits@ == retain_lsn_below_horizon@.push(horizon),
            dh == spec_key_history(full_history@),
            bs == base_seq(base_img_from_ancestor),
            has_ancestor == (base_img_from_ancestor is Some),
            lsns_sorted(dh),
            forall|p: int, q: int|
                0 <= p < q < splits@.len() ==> (#[trigger] splits@[p]) <= (#[trigger] splits@[q]),
            forall|j: int|
                0 <= j < splits@.len() ==> lv_view((#[trigger] buckets@[j])@) == spec_bucket(
                    dh,
                    lo_of(splits@, j),
                    Some(splits@[j]),
                ),
            lv_view((buckets@[splits@.len() as int])@) == spec_bucket(
                dh,
                lo_of(splits@, splits@.len() as int),
                None,
            ),
            // the processed prefix of the canonical history
            done == (if i == 0 {
                bs
            } else if i <= splits@.len() {
                bs + spec_visible_upto(dh, splits@[i - 1])
            } else {
                bs + dh
            }),
            // the replay state stands for exactly that prefix
            replay_values(lv_values(lv_view(rh@))) == replay_values(lv_values(done)),
            // the replay state always opens self-contained
            rh@.len() > 0 ==> rh@[0].1@.will_init(),
            has_ancestor ==> rh@.len() > 0,
            !has_ancestor && rh@.len() == 0 ==> done == Seq::<(u64, ValueView)>::empty(),
            !has_ancestor && done.len() == 0 ==> rh@.len() == 0,
            !has_ancestor && !has_init(dh) ==> rh@.len() == 0,
            !has_ancestor && done.len() > 0 ==> has_init(spec_first_visible(dh, splits@)),
            full_history@.len() == 0 ==> dh.len() == 0,
            full_history@.len() > 0 ==> dh.len() > 0 && dh[0] == (
                full_history@[0].1,
                full_history@[0].2@,
            ),
            records_since_last_image > 0 ==> rh@.len() > 0,
            dh.len() == dedup_len,
            done.len() >= bs.len(),
            done.len() - bs.len() <= dh.len(),
            records_since_last_image as int <= done.len() - bs.len(),
            i == 0 ==> records_since_last_image == 0,
            i > 0 ==> records_since_last_image as int == spec_records_after(
                dh,
                splits@,
                has_ancestor,
                delta_threshold_cnt as int,
                i - 1,
            ),
            forall|j: int|
                0 <= j < below@.len() ==> #[trigger] spec_retention_shape(
                    below@,
                    dh,
                    bs,
                    splits@,
                    has_ancestor,
                    delta_threshold_cnt as int,
                    j,
                ),
            // what has been emitted so far
            below@.len() == (if i <= retain_lsn_below_horizon@.len() {
                i as int
            } else {
                retain_lsn_below_horizon@.len() as int + 1
            }),
            forall|j: int|
                0 <= j < below@.len() ==> (#[trigger] below@[j]).0 == splits@[j],
            replay_values(lv_values(bs + concat_logs(below@))) == replay_values(lv_values(done))
                || (i as int) == splits@.len() + 1,
            i > splits@.len() ==> lv_view(above.0@) == spec_bucket(
                dh,
                Some(horizon),
                None,
            ),
            i <= splits@.len() ==> above.0@.len() == 0,
            forall|j: int|
                0 <= j < below@.len() ==> replay_values(
                    lv_values(bs + concat_logs(#[trigger] below@.take(j + 1))),
                ) == replay_values(lv_values(bs + spec_visible_upto(dh, below@[j].0))),
            forall|j: int|
                0 <= j < below@.len() ==> lv_view((#[trigger] below@[j]).1.0@) == spec_bucket(
                    dh,
                    lo_of(splits@, j),
                    Some(splits@[j]),
                ) || exists|img: Seq<u8>|
                    lv_view(below@[j].1.0@) == seq![(below@[j].0, ValueView::Image(img))],
        decreases buckets@.len() - i,
    {
        let ghost bkt = lv_view(buckets@[i as int]@);
        let ghost done_before = done;
        let ghost new_done = done + bkt;
        let is_last = i + 1 == buckets.len();
        proof {
            // the prefix grows by exactly this bucket
            if i == 0 {
                lemma_first_bucket(dh, splits@[0]);
            } else if i < splits@.len() {
                lemma_visible_split(dh, splits@[i - 1], splits@[i as int]);
                assert(bs + spec_visible_upto(dh, splits@[i as int]) =~= (bs + spec_visible_upto(
                    dh,
                    splits@[i - 1],
                )) + bkt);
            } else {
                lemma_visible_all(dh, splits@[i - 1]);
                assert(bs + dh =~= (bs + spec_visible_upto(dh, splits@[i - 1])) + bkt);
            }
            if i == 0 {
                assert(new_done =~= bs + spec_visible_upto(dh, splits@[0]));
            }
        }
        // append the bucket to the replay state
        let bucket_len = buckets[i].len();
        let ghost rh_before = rh@;
        append_logs(&mut rh, &buckets[i]);
        proof {
            assert(lv_values(lv_view(rh@)) =~= lv_values(lv_view(rh_before)) + lv_values(bkt));
            assert(lv_values(new_done) =~= lv_values(done_before) + lv_values(bkt));
            crate::value::lemma_replay_congruence(
                lv_values(lv_view(rh_before)),
                lv_values(done_before),
                lv_values(bkt),
            );
        }
        proof {
            lemma_visible_len(dh, splits@[if i < splits@.len() {
                i as int
            } else {
                splits@.len() - 1
            }]);
            if i < splits@.len() {
                assert(new_done == bs + spec_visible_upto(dh, splits@[i as int]));
            } else {
                assert(new_done == bs + dh);
            }
            assert(new_done.len() == done_before.len() + bkt.len());
            assert(bucket_len == bkt.len());
            assert(records_since_last_image + bucket_len <= dh.len());
        }
        records_since_last_image = if bucket_len > usize::MAX - records_since_last_image {
            usize::MAX
        } else {
            records_since_last_image + bucket_len
        };
        proof {
            assert(records_since_last_image as int == spec_records_since(
                dh,
                splits@,
                has_ancestor,
                delta_threshold_cnt as int,
                i as int,
            ));
        }
        // only retain the items after the last self-initializing value
        let ghost rh_extended = rh@;
        truncate_to_last_init(&mut rh);
        if rh.len() > 0 {
            let head_init = {
                let (_, ref v0) = rh[0];
                v0.will_init()
            };
            if !head_init {
                // the history opens with a bare record and nothing
                // initializes it: the caller lacks an ancestor image
                proof {
                    assert(rh@ == rh_extended);
                    assert(!(exists|p: int|
                        0 <= p < rh_extended.len() && (
                        #[trigger] rh_extended[p]).1@.will_init()));
                    if rh_before.len() > 0 {
                        assert(lv_view(rh_extended)[0] == lv_view(rh_before)[0]);
                        assert(rh_extended[0].1@ == rh_before[0].1@);
                        assert(rh_extended[0].1@.will_init());
                    }
                    assert(rh_before.len() == 0);
                    assert(!has_ancestor);
                    assert(done_before =~= Seq::<(u64, ValueView)>::empty());
                    assert(lv_view(rh@) =~= bkt);
                    if i == 0 {
                        assert(new_done == bs + spec_visible_upto(dh, splits@[0]));
                        assert(new_done =~= spec_visible_upto(dh, splits@[0]));
                    } else if i < splits@.len() {
                        assert(new_done =~= spec_visible_upto(dh, splits@[i as int]));
                    } else {
                        assert(new_done =~= dh);
                    }
                    assert(new_done =~= bkt);
                    assert(new_done.len() > 0);
                    if i < splits@.len() {
                        lemma_visible_first(dh, splits@[i as int]);
                        assert(spec_visible_upto(dh, splits@[i as int])[0] == dh[0]);
                    }
                    assert(new_done[0] == dh[0]);
                    assert(dh.len() > 0);
                    assert(full_history@.len() > 0);
                    assert(new_done[0] == lv_view(rh@)[0]);
                    assert(!dh[0].1.will_init());
                    assert(!full_history@[0].2@.will_init());
                    // this bucket is the first nonempty visible prefix,
                    // and nothing in it initializes the page
                    lemma_first_visible_bucket(
                        dh,
                        splits@,
                        i as int,
                        bs,
                        done_before,
                        new_done,
                        bkt,
                    );
                    assert(!has_init(bkt)) by {
                        if has_init(bkt) {
                            let p = choose|p: int|
                                0 <= p < bkt.len() && (#[trigger] bkt[p]).1.will_init();
                            assert(lv_view(rh_extended)[p] == bkt[p]);
                            assert(rh_extended[p].1@.will_init());
                        }
                    }
                    assert(!has_init(spec_first_visible(dh, splits@)));
                }
                return Err(EngineError::IncompleteHistory);
            }
        }
        proof {
            // crossing into the first nonempty prefix without failing
            // means this bucket initializes the page somewhere
            if !has_ancestor && done_before.len() == 0 && new_done.len() > 0 {
                assert(rh_before.len() == 0);
                assert(lv_view(rh_extended) =~= bkt);
                assert(rh_extended.len() > 0);
                assert(rh@.len() > 0);
                assert(rh@[0].1@.will_init());
                assert(exists|p: int|
                    0 <= p < rh_extended.len() && (#[trigger] rh_extended[p]).1@.will_init()) by {
                    if !(exists|p: int|
                        0 <= p < rh_extended.len() && (#[trigger] rh_extended[p]).1@.will_init()) {
                        assert(rh@ == rh_extended);
                        assert(rh_extended[0].1@.will_init());
                    }
                }
                let p = choose|p: int|
                    0 <= p < rh_extended.len() && (#[trigger] rh_extended[p]).1@.will_init();
                assert(lv_view(rh_extended)[p] == bkt[p]);
                assert(has_init(bkt));
                lemma_first_visible_bucket(
                    dh,
                    splits@,
                    i as int,
                    bs,
                    done_before,
                    new_done,
                    bkt,
                );
                assert(has_init(spec_first_visible(dh, splits@)));
            }
            // a history with no self-initializing value anywhere cannot
            // put anything into the replay state: the walk above would
            // have failed first
            if !has_ancestor && !has_init(dh) {
                assert(rh_before.len() == 0);
                assert(lv_view(rh_extended) =~= bkt);
                if rh@.len() > 0 {
                    assert(rh@[0].1@.will_init());
                    if exists|p: int|
                        0 <= p < rh_extended.len() && (#[trigger] rh_extended[p]).1@.will_init() {
                        let p = choose|p: int|
                            0 <= p < rh_extended.len() && (
                            #[trigger] rh_extended[p]).1@.will_init();
                        assert(lv_view(rh_extended)[p].1.will_init());
                        assert(bkt[p].1.will_init());
                    } else {
                        assert(rh@ == rh_extended);
                        assert(rh_extended[0].1@.will_init());
                    }
                    assert(has_init(bkt));
                    lemma_bucket_init(dh, lo_of(splits@, i as int), bucket_hi(splits@, i as int));
                    assert(false);
                }
                assert(rh_extended.len() == 0);
                assert(bkt.len() == 0);
            }
        }
        // decide whether to materialize an image at this cutoff
        let generate_image: bool = if i == 0 && !has_ancestor {
            true
        } else if is_last {
            false
        } else {
            records_since_last_image >= delta_threshold_cnt
        };
        proof {
            assert(generate_image == spec_gen_image(
                i as int,
                splits@.len() as int + 1,
                has_ancestor,
                records_since_last_image as int,
                delta_threshold_cnt as int,
            ));
        }
        if generate_image && records_since_last_image > 0 {
            records_since_last_image = 0;
            let request_lsn = splits[i];
            proof {
                assert(rh@.len() > 0 && rh@[0].1@.will_init());
                crate::value::lemma_replay_init_some(lv_values(lv_view(rh@)));
            }
            let img = reconstruct_page(&rh);
            let ghost imgv = ValueView::Image(img@);
            let mut logs: Vec<(u64, Value)> = Vec::new();
            let mut nrh: Vec<(u64, Value)> = Vec::new();
            nrh.push((request_lsn, Value::Image(crate::value::clone_bytes(&img))));
            logs.push((request_lsn, Value::Image(img)));
            rh = nrh;
            let ghost below_before = below@;
            below.push((request_lsn, KeyLogAtLsn(logs)));
            proof {
                assert(lv_values(lv_view(rh@)) =~= seq![imgv]);
                assert(replay_values(lv_values(lv_view(rh@))) == Some(img@));
                assert(below@.drop_last() =~= below_before);
                assert(concat_logs(below@) =~= concat_logs(below_before) + seq![
                    (request_lsn, imgv),
                ]);
                assert(lv_values(bs + concat_logs(below@)) =~= lv_values(
                    bs + concat_logs(below_before),
                ).push(imgv));
                assert(replay_values(lv_values(bs + concat_logs(below@))) == Some(img@));
                assert(replay_values(lv_values(new_done)) == Some(img@));
                lemma_retention_prefixes_stable(below_before, below@);
                assert(below@.take(below@.len() as int) =~= below@);
                assert(lv_view(below@.last().1.0@) =~= seq![(request_lsn, imgv)]);
                assert forall|j: int|
                    0 <= j < below@.len() implies lv_view((#[trigger] below@[j]).1.0@)
                    == spec_bucket(dh, lo_of(splits@, j), Some(splits@[j])) || exists|im: Seq<u8>|
                    lv_view(below@[j].1.0@) == seq![(below@[j].0, ValueView::Image(im))] by {
                    if j == below@.len() - 1 {
                        assert(lv_view(below@[j].1.0@) == seq![
                            (below@[j].0, ValueView::Image(img@)),
                        ]);
                    } else {
                        assert(below@[j] == below_before[j]);
                    }
                }
                assert forall|j: int|
                    0 <= j < below@.len() implies #[trigger] spec_retention_shape(
                    below@,
                    dh,
                    bs,
                    splits@,
                    has_ancestor,
                    delta_threshold_cnt as int,
                    j,
                ) by {
                    if j < below@.len() - 1 {
                        assert(below@[j] == below_before[j]);
                        assert(spec_retention_shape(below_before, dh, bs, splits@, has_ancestor,
                            delta_threshold_cnt as int, j));
                    } else {
                        assert(lv_view(below@[j].1.0@) == seq![
                            (splits@[i as int], ValueView::Image(img@)),
                        ]);
                        assert(Some(img@) == replay_values(lv_values(new_done)));
                        assert(new_done == bs + spec_visible_upto(dh, splits@[i as int]));
                    }
                }
            }
        } else {
            let logs = clone_logs(&buckets[i]);
            if !is_last {
                let cutoff = splits[i];
                let ghost below_before = below@;
                below.push((cutoff, KeyLogAtLsn(logs)));
                proof {
                    assert(below@.drop_last() =~= below_before);
                    assert(concat_logs(below@) =~= concat_logs(below_before) + bkt);
                    assert(lv_values(bs + concat_logs(below@)) =~= lv_values(
                        bs + concat_logs(below_before),
                    ) + lv_values(bkt));
                    crate::value::lemma_replay_congruence(
                        lv_values(bs + concat_logs(below_before)),
                        lv_values(done_before),
                        lv_values(bkt),
                    );
                    lemma_retention_prefixes_stable(below_before, below@);
                    assert(below@.take(below@.len() as int) =~= below@);
                    assert forall|j: int|
                        0 <= j < below@.len() implies #[trigger] spec_retention_shape(
                        below@,
                        dh,
                        bs,
                        splits@,
                        has_ancestor,
                        delta_threshold_cnt as int,
                        j,
                    ) by {
                        if j < below@.len() - 1 {
                            assert(below@[j] == below_before[j]);
                            assert(spec_retention_shape(below_before, dh, bs, splits@,
                                has_ancestor, delta_threshold_cnt as int, j));
                        } else {
                            assert(lv_view(below@[j].1.0@) == bkt);
                        }
                    }
                }
            } else {
                above = KeyLogAtLsn(logs);
                proof {
                    assert(lo_of(splits@, splits@.len() as int) == Some(horizon));
                }
            }
        }
        proof {
            done = new_done;
        }
        i = i + 1;
    }
    proof {
        let cuts = below@.map_values(|c: (u64, KeyLogAtLsn)| c.0);
        assert forall|j: int| 0 <= j < below@.len() implies lo_of(cuts, j) == lo_of(
            splits@,
            j,
        ) by {
            if j > 0 {
                assert(cuts[j - 1] == below@[j - 1].0);
            }
        }
        // a non-empty history with no self-initializing value never gets
        // this far: its first populated bucket already failed
        if !has_ancestor && full_history@.len() > 0 && !spec_history_has_init(full_history@) {
            assert(!has_init(dh)) by {
                if has_init(dh) {
                    lemma_dedup_init(triples_view(full_history@));
                    let q = choose|q: int|
                        0 <= q < triples_view(full_history@).len() && (
                        #[trigger] triples_view(full_history@)[q]).1.will_init();
                    assert(full_history@[q].2@.will_init());
                }
            }
            assert(rh@.len() == 0);
            assert(done == Seq::<(u64, ValueView)>::empty());
            assert(done == bs + dh);
            assert(dh.len() > 0);
            assert(false);
        }
        // succeeding means the first populated prefix held an
        // initializing value, unless a base made one unnecessary
        if !spec_has_base(full_history@, base_img_from_ancestor) {
            assert(!has_ancestor);
            assert(full_history@.len() > 0);
            assert(dh.len() > 0);
            assert(done == bs + dh);
            assert(done.len() > 0);
            assert(has_init(spec_first_visible(dh, splits@)));
        }
    }
    Ok(KeyHistoryRetention { below_horizon: below, above_horizon: above })
}

/// Logs that consist of exactly one full image.
pub open spec fn log_is_single_image(logs: Seq<(u64, ValueView)>) -> bool {
    logs.len() == 1 && logs[0].1.is_image()
}

/// One key's logs as delta-layer entries.
pub open spec fn keyed_entries(key: u128, logs: Seq<(u64, ValueView)>) -> Seq<
    (u128, u64, ValueView),
> {
    logs.map_values(|p: (u64, ValueView)| (key, p.0, p.1))
}

/// All logs of the cutoffs from `from` on, keyed, in order.
pub open spec fn flatten_keyed(key: u128, below: Seq<(u64, KeyLogAtLsn)>, from: int) -> Seq<
    (u128, u64, ValueView),
>
    decreases below.len() - from,
{
    if from < 0 || from >= below.len() {
        Seq::empty()
    } else {
        keyed_entries(key, lv_view(below[from].1.0@)) + flatten_keyed(key, below, from + 1)
    }
}

/// View of an image writer's entries.
pub open spec fn iw_view(s: Seq<(u128, Vec<u8>)>) -> Seq<(u128, Seq<u8>)> {
    s.map_values(|e: (u128, Vec<u8>)| (e.0, e.1@))
}

/// Where the logs after the first cutoff start: past the first cutoff
/// when it was emitted as a single image, else at it.
pub open spec fn pipe_from(kr: KeyHistoryRetention) -> int {
    if kr.below_horizon@.len() > 0 && log_is_single_image(lv_view(kr.below_horizon@[0].1.0@)) {
        1int
    } else {
        0int
    }
}

/// What [`KeyHistoryRetention::pipe_to`] appends to the two writers.
pub open spec fn spec_pipe_effect(
    kr: KeyHistoryRetention,
    key: u128,
    dw_old: Seq<(u128, u64, Value)>,
    dw_new: Seq<(u128, u64, Value)>,
    iw_old: Seq<(u128, Vec<u8>)>,
    iw_new: Seq<(u128, Vec<u8>)>,
    use_image_writer: bool,
) -> bool {
    let below = kr.below_horizon@;
    let first_single = pipe_from(kr) == 1;
    let tail = flatten_keyed(key, below, pipe_from(kr)) + keyed_entries(
        key,
        lv_view(kr.above_horizon.0@),
    );
    if first_single && use_image_writer {
        &&& crate::layer_map::entries_view(dw_new) == crate::layer_map::entries_view(dw_old) + tail
        &&& iw_view(iw_new) == iw_view(iw_old).push(
            (key, lv_view(below[0].1.0@)[0].1->Image_0),
        )
    } else if first_single {
        &&& crate::layer_map::entries_view(dw_new) == crate::layer_map::entries_view(dw_old)
            + seq![(key, below[0].0, lv_view(below[0].1.0@)[0].1)] + tail
        &&& iw_new == iw_old
    } else {
        &&& crate::layer_map::entries_view(dw_new) == crate::layer_map::entries_view(dw_old) + tail
        &&& iw_new == iw_old
    }
}

/// The writers part-way through piping: the first `bi` cutoffs routed.
pub open spec fn spec_pipe_partial(
    kr: KeyHistoryRetention,
    key: u128,
    dw_old: Seq<(u128, u64, Value)>,
    dw_new: Seq<(u128, u64, Value)>,
    iw_old: Seq<(u128, Vec<u8>)>,
    iw_new: Seq<(u128, Vec<u8>)>,
    use_image_writer: bool,
    bi: int,
) -> bool {
    let below = kr.below_horizon@;
    let first_single = pipe_from(kr) == 1;
    let fk = flatten_keyed(key, below, pipe_from(kr));
    let part = fk.take(fk.len() - flatten_keyed(key, below, bi).len());
    if first_single && use_image_writer {
        &&& crate::layer_map::entries_view(dw_new) == crate::layer_map::entries_view(dw_old) + part
        &&& iw_view(iw_new) == iw_view(iw_old).push(
            (key, lv_view(below[0].1.0@)[0].1->Image_0),
        )
    } else if first_single {
        &&& crate::layer_map::entries_view(dw_new) == crate::layer_map::entries_view(dw_old)
            + seq![(key, below[0].0, lv_view(below[0].1.0@)[0].1)] + part
        &&& iw_new == iw_old
    } else {
        &&& crate::layer_map::entries_view(dw_new) == crate::layer_map::entries_view(dw_old) + part
        &&& iw_new == iw_old
    }
}

impl KeyHistoryRetention {
    /// Route this key's retention into the writers: when the lowest
    /// cutoff came out as a single image it goes to the image writer —
    /// or, when no image layer is being built, into the delta writer at
    /// the cutoff LSN — and every remaining log goes to the delta writer
    /// verbatim.
    pub fn pipe_to(
        self,
        key: u128,
        delta_writer: &mut Vec<(u128, u64, Value)>,
        image_writer: &mut Vec<(u128, Vec<u8>)>,
        use_image_writer: bool,
        stat: &mut CompactionStatistics,
    )
        ensures
            old(stat).num_unique_keys_visited < u64::MAX ==> final(stat).num_unique_keys_visited
                == old(stat).num_unique_keys_visited + 1,
            spec_pipe_effect(
                self,
                key,
                old(delta_writer)@,
                final(delta_writer)@,
                old(image_writer)@,
                final(image_writer)@,
                use_image_writer,
            ),
    {
        stat.on_unique_key_visited();
        let ghost kr = self;
        let KeyHistoryRetention { below_horizon, above_horizon } = self;
        let ghost below = below_horizon@;
        let mut first_batch = true;
        let mut bi: usize = 0;
        let ghost dw0 = delta_writer@;
        let ghost iw0 = image_writer@;
        let n = below_horizon.len();
        let mut rest = below_horizon;
        proof {
            let fk = flatten_keyed(key, below, pipe_from(kr));
            assert(fk.take(fk.len() - fk.len()) =~= Seq::<(u128, u64, ValueView)>::empty());
            assert(crate::layer_map::entries_view(delta_writer@)
                =~= crate::layer_map::entries_view(dw0) + Seq::<(u128, u64, ValueView)>::empty());
        }
        while bi < n
            invariant
                bi <= n,
                n == below.len(),
                below == kr.below_horizon@,
                rest@ == below.skip(bi as int),
                first_batch == (bi == 0),
                bi == 0 ==> delta_writer@ == dw0 && image_writer@ == iw0,
                bi > 0 ==> spec_pipe_partial(
                    kr,
                    key,
                    dw0,
                    delta_writer@,
                    iw0,
                    image_writer@,
                    use_image_writer,
                    bi as int,
                ),
            decreases n - bi,
        {
            let (cutoff_lsn, KeyLogAtLsn(logs)) = rest.remove(0);
            proof {
                assert(below.skip(bi as int)[0] == below[bi as int]);
                assert(below.skip(bi as int).drop_first() =~= below.skip(bi + 1));
                assert(lv_view(logs@) == lv_view(below[bi as int].1.0@));
            }
            let single_image = logs.len() == 1 && {
                let (_, ref v0) = logs[0];
                v0.is_image()
            };
            if first_batch && single_image {
                let mut logs2 = logs;
                let (ilsn, img_val) = logs2.remove(0);
                proof {
                    assert(pipe_from(kr) == 1);
                    assert(img_val@ == lv_view(below[0].1.0@)[0].1);
                }
                match img_val {
                    Value::Image(img) => {
                        if use_image_writer {
                            let ghost iw_before = image_writer@;
                            image_writer.push((key, img));
                            proof {
                                assert(iw_view(image_writer@) =~= iw_view(iw_before).push(
                                    (key, lv_view(below[0].1.0@)[0].1->Image_0),
                                ));
                                let fk = flatten_keyed(key, below, 1);
                                assert(fk.take(fk.len() - flatten_keyed(key, below, 1).len())
                                    =~= Seq::<(u128, u64, ValueView)>::empty());
                                assert(crate::layer_map::entries_view(delta_writer@)
                                    =~= crate::layer_map::entries_view(dw0) + fk.take(
                                    fk.len() - flatten_keyed(key, below, 1).len(),
                                ));
                            }
                        } else {
                            let ghost dw_before = delta_writer@;
                            delta_writer.push((key, cutoff_lsn, Value::Image(img)));
                            proof {
                                assert(crate::layer_map::entries_view(delta_writer@)
                                    =~= crate::layer_map::entries_view(dw_before) + seq![
                                    (key, below[0].0, lv_view(below[0].1.0@)[0].1),
                                ]);
                                let fk = flatten_keyed(key, below, 1);
                                assert(fk.take(fk.len() - flatten_keyed(key, below, 1).len())
                                    =~= Seq::<(u128, u64, ValueView)>::empty());
                                assert(crate::layer_map::entries_view(delta_writer@)
                                    =~= crate::layer_map::entries_view(dw0) + seq![
                                    (key, below[0].0, lv_view(below[0].1.0@)[0].1),
                                ] + fk.take(fk.len() - flatten_keyed(key, below, 1).len()));
                            }
                        }
                    }
                    Value::WalRecord(_) => {
                        proof {
                            assert(false);
                        }
                    }
                }
            } else {
                let ghost dw_before = delta_writer@;
                let ghost from = pipe_from(kr);
                proof {
                    if first_batch {
                        assert(!single_image);
                        assert(!log_is_single_image(lv_view(below[0].1.0@)));
                        assert(from == 0);
                    }
                }
                push_keyed(delta_writer, key, logs);
                proof {
                    let fk = flatten_keyed(key, below, from);
                    if bi == 0 {
                        assert(fk.take(fk.len() - flatten_keyed(key, below, 0).len()) =~= Seq::<
                            (u128, u64, ValueView),
                        >::empty());
                        assert(crate::layer_map::entries_view(dw_before)
                            =~= crate::layer_map::entries_view(dw0) + fk.take(
                            fk.len() - flatten_keyed(key, below, bi as int).len(),
                        ));
                    }
                    lemma_flatten_take(key, below, from, bi as int);
                    let part = fk.take(fk.len() - flatten_keyed(key, below, bi as int).len());
                    let kk = keyed_entries(key, lv_view(below[bi as int].1.0@));
                    assert(crate::layer_map::entries_view(delta_writer@)
                        == crate::layer_map::entries_view(dw_before) + keyed_entries(
                        key,
                        lv_view(logs@),
                    ));
                    assert(crate::layer_map::entries_view(dw0) + part + kk
                        =~= crate::layer_map::entries_view(dw0) + (part + kk));
                    if pipe_from(kr) == 1 && !use_image_writer && bi > 0 {
                        let hd = seq![(key, below[0].0, lv_view(below[0].1.0@)[0].1)];
                        assert(crate::layer_map::entries_view(dw_before)
                            =~= crate::layer_map::entries_view(dw0) + hd + part);
                        assert(crate::layer_map::entries_view(dw0) + hd + part + kk
                            =~= crate::layer_map::entries_view(dw0) + hd + (part + kk));
                    }
                    if pipe_from(kr) == 0 || use_image_writer {
                        assert(crate::layer_map::entries_view(dw_before)
                            =~= crate::layer_map::entries_view(dw0) + part);
                    }
                    assert(spec_pipe_partial(
                        kr,
                        key,
                        dw0,
                        delta_writer@,
                        iw0,
                        image_writer@,
                        use_image_writer,
                        bi + 1,
                    ));
                }
            }
            first_batch = false;
            bi = bi + 1;
        }
        let ghost dw_final_below = delta_writer@;
        let KeyLogAtLsn(above_logs) = above_horizon;
        push_keyed(delta_writer, key, above_logs);
        proof {
            assert(above_logs@ == kr.above_horizon.0@);
            let fk = flatten_keyed(key, below, pipe_from(kr));
            let ak = keyed_entries(key, lv_view(kr.above_horizon.0@));
            let ev0 = crate::layer_map::entries_view(dw0);
            assert(flatten_keyed(key, below, n as int) =~= Seq::<(u128, u64, ValueView)>::empty());
            assert(fk.take(fk.len() - 0) =~= fk);
            if n == 0 {
                assert(fk =~= Seq::<(u128, u64, ValueView)>::empty());
                assert(crate::layer_map::entries_view(dw_final_below) =~= ev0 + fk);
            }
            assert(crate::layer_map::entries_view(delta_writer@)
                == crate::layer_map::entries_view(dw_final_below) + ak);
            if pipe_from(kr) == 1 && use_image_writer {
                assert(crate::layer_map::entries_view(dw_final_below) =~= ev0 + fk);
                assert(ev0 + fk + ak =~= ev0 + (fk + ak));
            } else if pipe_from(kr) == 1 {
                let hd = seq![(key, below[0].0, lv_view(below[0].1.0@)[0].1)];
                assert(crate::layer_map::entries_view(dw_final_below) =~= ev0 + hd + fk);
                assert(ev0 + hd + fk + ak =~= ev0 + hd + (fk + ak));
            } else {
                assert(crate::layer_map::entries_view(dw_final_below) =~= ev0 + fk);
                assert(ev0 + fk + ak =~= ev0 + (fk + ak));
            }
        }
    }
}

/// Drained prefixes of the flattened logs compose.
proof fn lemma_flatten_take(key: u128, below: Seq<(u64, KeyLogAtLsn)>, from: int, bi: int)
    requires
        0 <= from <= bi < below.len(),
    ensures
        flatten_keyed(key, below, bi).len() <= flatten_keyed(key, below, from).len(),
        flatten_keyed(key, below, bi + 1).len() <= flatten_keyed(key, below, from).len(),
        flatten_keyed(key, below, from).take(
            flatten_keyed(key, below, from).len() - flatten_keyed(key, below, bi).len(),
        ) + keyed_entries(key, lv_view(below[bi].1.0@)) =~= flatten_keyed(key, below, from).take(
            flatten_keyed(key, below, from).len() - flatten_keyed(key, below, bi + 1).len(),
        ),
    decreases bi - from,
{
    let fk = flatten_keyed(key, below, from);
    let kk = keyed_entries(key, lv_view(below[from].1.0@));
    assert(fk == kk + flatten_keyed(key, below, from + 1));
    assert(flatten_keyed(key, below, bi) == keyed_entries(key, lv_view(below[bi].1.0@))
        + flatten_keyed(key, below, bi + 1));
    if from == bi {
        assert(fk.take(fk.len() - flatten_keyed(key, below, bi).len()) =~= Seq::<
            (u128, u64, ValueView),
        >::empty());
        assert(fk.take(fk.len() - flatten_keyed(key, below, bi + 1).len()) =~= kk);
    } else {
        lemma_flatten_take(key, below, from + 1, bi);
        let f1 = flatten_keyed(key, below, from + 1);
        assert(fk.take(fk.len() - flatten_keyed(key, below, bi).len()) =~= kk + f1.take(
            f1.len() - flatten_keyed(key, below, bi).len(),
        ));
        assert(fk.take(fk.len() - flatten_keyed(key, below, bi + 1).len()) =~= kk + f1.take(
            f1.len() - flatten_keyed(key, below, bi + 1).len(),
        ));
        assert(kk + f1.take(f1.len() - flatten_keyed(key, below, bi).len()) + keyed_entries(
            key,
            lv_view(below[bi].1.0@),
        ) =~= kk + (f1.take(f1.len() - flatten_keyed(key, below, bi).len()) + keyed_entries(
            key,
            lv_view(below[bi].1.0@),
        )));
    }
}

/// Append one key's logs to a delta writer.
fn push_keyed(delta_writer: &mut Vec<(u128, u64, Value)>, key: u128, logs: Vec<(u64, Value)>)
    ensures
        crate::layer_map::entries_view(final(delta_writer)@) == crate::layer_map::entries_view(
            old(delta_writer)@,
        ) + keyed_entries(key, lv_view(logs@)),
{
    let ghost logs0 = logs@;
    let mut t: usize = 0;
    proof {
        assert(crate::layer_map::entries_view(delta_writer@) =~= crate::layer_map::entries_view(
            old(delta_writer)@,
        ) + keyed_entries(key, lv_view(logs0)).take(0));
    }
    while t < logs.len()
        invariant
            t <= logs@.len(),
            logs@ == logs0,
            crate::layer_map::entries_view(delta_writer@) == crate::layer_map::entries_view(
                old(delta_writer)@,
            ) + keyed_entries(key, lv_view(logs0)).take(t as int),
        decreases logs@.len() - t,
    {
        let (lsn, ref val) = logs[t];
        let ghost dwb = delta_writer@;
        delta_writer.push((key, lsn, val.clone()));
        proof {
            assert(crate::layer_map::entries_view(delta_writer@)
                =~= crate::layer_map::entries_view(dwb).push((key, lsn, logs0[t as int].1@)));
            assert(crate::layer_map::entries_view(delta_writer@)
                =~= crate::layer_map::entries_view(old(delta_writer)@) + keyed_entries(
                key,
                lv_view(logs0),
            ).take(t + 1));
        }
        t = t + 1;
    }
    proof {
        assert(keyed_entries(key, lv_view(logs0)).take(logs0.len() as int) =~= keyed_entries(
            key,
            lv_view(logs0),
        ));
    }
}

/// Pushing a new cutoff leaves the earlier prefixes of the retention
/// unchanged.
proof fn lemma_retention_prefixes_stable(before: Seq<(u64, KeyLogAtLsn)>, after: Seq<(u64, KeyLogAtLsn)>)
    requires
        after.drop_last() == before,
        after.len() == before.len() + 1,
    ensures
        forall|j: int| 0 <= j + 1 < after.len() ==> #[trigger] after.take(j + 1) == before.take(j + 1),
{
    assert forall|j: int| 0 <= j + 1 < after.len() implies #[trigger] after.take(j + 1)
        == before.take(j + 1) by {
        assert(after.take(j + 1) =~= before.take(j + 1));
    }
}

/// Copy a delta layer, preserving its descriptor and entries.
pub(crate) fn clone_delta_layer(d: &crate::layer_map::DeltaLayer) -> (r: crate::layer_map::DeltaLayer)
    ensures
        crate::compaction::layer_shape_eq(r, *d),
{
    let mut entries: Vec<(u128, u64, Value)> = Vec::new();
    let mut t: usize = 0;
    proof {
        assert(crate::layer_map::entries_view(entries@) =~= crate::layer_map::entries_view(
            d.entries@,
        ).take(0));
    }
    while t < d.entries.len()
        invariant
            t <= d.entries@.len(),
            crate::layer_map::entries_view(entries@) == crate::layer_map::entries_view(
                d.entries@,
            ).take(t as int),
        decreases d.entries@.len() - t,
    {
        let (k, l, ref v) = d.entries[t];
        let ghost before = entries@;
        entries.push((k, l, v.clone()));
        proof {
            assert(crate::layer_map::entries_view(entries@) =~= crate::layer_map::entries_view(
                before,
            ).push((k, l, d.entries@[t as int].2@)));
            assert(crate::layer_map::entries_view(entries@) =~= crate::layer_map::entries_view(
                d.entries@,
            ).take(t + 1));
        }
        t = t + 1;
    }
    proof {
        assert(crate::layer_map::entries_view(d.entries@).take(d.entries@.len() as int)
            =~= crate::layer_map::entries_view(d.entries@));
    }
    crate::layer_map::DeltaLayer {
        key_range: d.key_range,
        lsn_range: d.lsn_range,
        entries,
        generation: d.generation,
        file_size: d.file_size,
    }
}

/// Stream an image layer as delta entries: one full image per key at the
/// layer's LSN.
fn image_layer_as_delta(im: &crate::layer_map::ImageLayer) -> (r: crate::layer_map::DeltaLayer)
    requires
        im.wf(),
        im.lsn < u64::MAX,
    ensures
        r.wf(),
        crate::inmemory_layer::entries_sorted(r.view_entries()),
        r.key_range == im.key_range,
        r.lsn_range == (crate::keys::LsnRange { start: im.lsn, end: (im.lsn + 1) as u64 }),
        r.view_entries() == im.view_entries().map_values(
            (
                |e: (u128, Seq<u8>)| (e.0, im.lsn, ValueView::Image(e.1))
            ),
        ),
{
    let mut entries: Vec<(u128, u64, Value)> = Vec::new();
    let ghost target = im.view_entries().map_values(
        |e: (u128, Seq<u8>)| (e.0, im.lsn, ValueView::Image(e.1)),
    );
    let mut t: usize = 0;
    proof {
        assert(crate::layer_map::entries_view(entries@) =~= target.take(0));
    }
    while t < im.entries.len()
        invariant
            t <= im.entries@.len(),
            target == im.view_entries().map_values(
                (
                    |e: (u128, Seq<u8>)| (e.0, im.lsn, ValueView::Image(e.1))
                ),
            ),
            crate::layer_map::entries_view(entries@) == target.take(t as int),
        decreases im.entries@.len() - t,
    {
        let (k, ref img) = im.entries[t];
        let ghost before = entries@;
        entries.push((k, im.lsn, Value::Image(crate::value::clone_bytes(img))));
        proof {
            assert(crate::layer_map::entries_view(entries@) =~= crate::layer_map::entries_view(
                before,
            ).push((k, im.lsn, ValueView::Image(im.entries@[t as int].1@))));
            assert(crate::layer_map::entries_view(entries@) =~= target.take(t + 1));
        }
        t = t + 1;
    }
    proof {
        assert(target.take(target.len() as int) =~= target);
    }
    let dl = crate::layer_map::DeltaLayer {
        key_range: im.key_range,
        lsn_range: crate::keys::LsnRange { start: im.lsn, end: im.lsn + 1 },
        entries,
        generation: im.generation,
        file_size: im.file_size,
    };
    proof {
        assert forall|p: int, q: int|
            0 <= p < q < dl.entries@.len() implies crate::layer_map::entry_lt(
            ((#[trigger] dl.entries@[p]).0, dl.entries@[p].1),
            ((#[trigger] dl.entries@[q]).0, dl.entries@[q].1),
        ) by {
            assert(crate::layer_map::entry_view(dl.entries@[p]) == target[p]);
            assert(crate::layer_map::entry_view(dl.entries@[q]) == target[q]);
            assert(target[p].0 == im.view_entries()[p].0);
            assert(target[q].0 == im.view_entries()[q].0);
            assert(im.view_entries()[p].0 == im.entries@[p].0);
            assert(im.view_entries()[q].0 == im.entries@[q].0);
            assert(im.entries@[p].0 < im.entries@[q].0);
        }
        assert forall|p: int|
            0 <= p < dl.entries@.len() implies dl.key_range.spec_contains(
            (#[trigger] dl.entries@[p]).0,
        ) && dl.lsn_range.spec_contains(dl.entries@[p].1) by {
            assert(crate::layer_map::entry_view(dl.entries@[p]) == target[p]);
            assert(target[p].0 == im.view_entries()[p].0);
            assert(im.view_entries()[p].0 == im.entries@[p].0);
            assert(im.key_range.spec_contains(im.entries@[p].0));
            assert(crate::layer_map::entry_view(dl.entries@[p]).1 == im.lsn);
        }
        assert forall|p: int, q: int|
            0 <= p < q < dl.view_entries().len() implies crate::layer_map::entry_lt(
            ((#[trigger] dl.view_entries()[p]).0, dl.view_entries()[p].1),
            ((#[trigger] dl.view_entries()[q]).0, dl.view_entries()[q].1),
        ) by {
            assert(dl.view_entries()[p] == crate::layer_map::entry_view(dl.entries@[p]));
            assert(dl.view_entries()[q] == crate::layer_map::entry_view(dl.entries@[q]));
        }
    }
    dl
}

/// One cutoff's logs for a key of a pass without an ancestor image:
/// exactly what [`generate_key_retention`] emits there — the key's page
/// replayed at the cutoff when the emission rule fires, the bucket's
/// deltas verbatim otherwise.
pub open spec fn spec_pass_cutoff_logs(
    kh: Seq<(u64, ValueView)>,
    splits: Seq<u64>,
    threshold: int,
    j: int,
) -> Seq<(u64, ValueView)> {
    let recs = spec_records_since(kh, splits, false, threshold, j);
    if spec_gen_image(j, splits.len() as int + 1, false, recs, threshold) && recs > 0 {
        seq![
            (
                splits[j],
                ValueView::Image(
                    replay_values(lv_values(spec_visible_upto(kh, splits[j]))).unwrap(),
                ),
            ),
        ]
    } else {
        spec_bucket(kh, lo_of(splits, j), Some(splits[j]))
    }
}

/// With no ancestor, the lowest cutoff comes out as the key's single
/// image exactly when the key has any history at or below it.
pub open spec fn spec_first_cutoff_is_image(kh: Seq<(u64, ValueView)>, splits: Seq<u64>) -> bool {
    spec_bucket(kh, lo_of(splits, 0), Some(splits[0])).len() > 0
}

/// The keyed cutoff logs from cutoff `from` on.
pub open spec fn spec_pass_flatten(
    key: u128,
    kh: Seq<(u64, ValueView)>,
    splits: Seq<u64>,
    threshold: int,
    from: int,
) -> Seq<(u128, u64, ValueView)>
    decreases splits.len() - from,
{
    if from < 0 || from >= splits.len() {
        Seq::empty()
    } else {
        keyed_entries(key, spec_pass_cutoff_logs(kh, splits, threshold, from)) + spec_pass_flatten(
            key,
            kh,
            splits,
            threshold,
            from + 1,
        )
    }
}

/// The delta entries one key contributes to the pass: its cutoff logs —
/// past the image-materialized lowest cutoff, which goes to the image
/// layer instead — then its history above the horizon, verbatim.
pub open spec fn spec_pass_key_deltas(
    key: u128,
    kh: Seq<(u64, ValueView)>,
    splits: Seq<u64>,
    threshold: int,
) -> Seq<(u128, u64, ValueView)> {
    spec_pass_flatten(key, kh, splits, threshold, if spec_first_cutoff_is_image(kh, splits) {
        1int
    } else {
        0int
    }) + keyed_entries(key, spec_bucket(kh, Some(splits[splits.len() - 1]), None))
}

/// The image entry one key contributes to the pass: its page replayed at
/// the lowest cutoff, when it has any history there.
pub open spec fn spec_pass_key_image(
    key: u128,
    kh: Seq<(u64, ValueView)>,
    splits: Seq<u64>,
) -> Seq<(u128, Seq<u8>)> {
    if spec_first_cutoff_is_image(kh, splits) {
        seq![(key, replay_values(lv_values(spec_visible_upto(kh, splits[0]))).unwrap())]
    } else {
        Seq::empty()
    }
}

/// Length of the merged stream's leading single-key run.
pub open spec fn spec_group_len(s: Seq<(u128, u64, ValueView)>) -> int
    decreases s.len(),
{
    if s.len() == 0 {
        0int
    } else if s.len() == 1 {
        1int
    } else if s[1].0 == s[0].0 {
        1 + spec_group_len(s.drop_first())
    } else {
        1int
    }
}

/// A leading key group, keys dropped: the history handed to the per-key
/// retention.
pub open spec fn spec_group_history(s: Seq<(u128, u64, ValueView)>, len: int) -> Seq<
    (u64, ValueView),
> {
    s.take(len).map_values(|e: (u128, u64, ValueView)| (e.1, e.2))
}

/// A leading run is never empty on a non-empty stream and never longer
/// than it, and covers exactly the entries carrying its key.
proof fn lemma_group_len_pos(s: Seq<(u128, u64, ValueView)>)
    ensures
        s.len() > 0 ==> 1 <= spec_group_len(s) <= s.len(),
        s.len() == 0 ==> spec_group_len(s) == 0,
    decreases s.len(),
{
    if s.len() > 1 {
        lemma_group_len_pos(s.drop_first());
    }
}

/// A contiguous same-key run of length `k` is the leading group.
proof fn lemma_group_len_runs(s: Seq<(u128, u64, ValueView)>, k: int)
    requires
        1 <= k <= s.len(),
        forall|p: int| 0 <= p < k ==> (#[trigger] s[p]).0 == s[0].0,
        k < s.len() ==> s[k].0 != s[0].0,
    ensures
        spec_group_len(s) == k,
    decreases k,
{
    if s.len() == 1 {
    } else if k == 1 {
        assert(s[1].0 != s[0].0);
    } else {
        assert(s[1].0 == s[0].0);
        assert forall|p: int| 0 <= p < k - 1 implies (#[trigger] s.drop_first()[p]).0
            == s.drop_first()[0].0 by {
            assert(s.drop_first()[p] == s[p + 1]);
        }
        if k - 1 < s.drop_first().len() {
            assert(s.drop_first()[k - 1] == s[k as int]);
        }
        lemma_group_len_runs(s.drop_first(), k - 1);
    }
}

/// The delta-writer stream of a whole pass: each key group's delta
/// contribution, in stream order.
pub open spec fn spec_pass_deltas(
    s: Seq<(u128, u64, ValueView)>,
    splits: Seq<u64>,
    threshold: int,
) -> Seq<(u128, u64, ValueView)>
    decreases s.len() via spec_pass_deltas_decreases
{
    if s.len() == 0 {
        Seq::empty()
    } else {
        spec_pass_key_deltas(
            s[0].0,
            spec_dedup(spec_group_history(s, spec_group_len(s))),
            splits,
            threshold,
        ) + spec_pass_deltas(s.skip(spec_group_len(s)), splits, threshold)
    }
}

#[via_fn]
proof fn spec_pass_deltas_decreases(s: Seq<(u128, u64, ValueView)>, splits: Seq<u64>, threshold: int) {
    lemma_group_len_pos(s);
}

/// The image-writer stream of a whole pass: one reconstructed page per
/// key with history at or below the lowest cutoff, in stream order.
pub open spec fn spec_pass_images(
    s: Seq<(u128, u64, ValueView)>,
    splits: Seq<u64>,
    threshold: int,
) -> Seq<(u128, Seq<u8>)>
    decreases s.len() via spec_pass_images_decreases
{
    if s.len() == 0 {
        Seq::empty()
    } else {
        spec_pass_key_image(s[0].0, spec_dedup(spec_group_history(s, spec_group_len(s))), splits)
            + spec_pass_images(s.skip(spec_group_len(s)), splits, threshold)
    }
}

#[via_fn]
proof fn spec_pass_images_decreases(s: Seq<(u128, u64, ValueView)>, splits: Seq<u64>, threshold: int) {
    lemma_group_len_pos(s);
}

/// `(key, LSN)` pairs never decrease along the entries.
pub open spec fn keys_lsns_sorted(s: Seq<(u128, u64, ValueView)>) -> bool {
    forall|p: int, q: int|
        0 <= p < q < s.len() ==> crate::layer_map::entry_le(
            ((#[trigger] s[p]).0, s[p].1),
            ((#[trigger] s[q]).0, s[q].1),
        )
}

/// A bucket of a sorted history is sorted, keeps within its bounds, and
/// holds only the history's entries.
proof fn lemma_bucket_in_bounds(dh: Seq<(u64, ValueView)>, lo: Option<u64>, hi: Option<u64>)
    requires
        lsns_sorted(dh),
    ensures
        lsns_sorted(spec_bucket(dh, lo, hi)),
        forall|q: int|
            0 <= q < spec_bucket(dh, lo, hi).len() ==> {
                let e = #[trigger] spec_bucket(dh, lo, hi)[q];
                &&& (lo is Some ==> e.0 > lo.unwrap())
                &&& (hi is Some ==> e.0 <= hi.unwrap())
                &&& exists|w: int| 0 <= w < dh.len() && dh[w] == e
            },
    decreases dh.len(),
{
    if dh.len() > 0 {
        assert(lsns_sorted(dh.drop_last()));
        lemma_bucket_in_bounds(dh.drop_last(), lo, hi);
        let bk = spec_bucket(dh, lo, hi);
        let bd = spec_bucket(dh.drop_last(), lo, hi);
        if (lo is None || dh.last().0 > lo.unwrap()) && (hi is None || dh.last().0
            <= hi.unwrap()) {
            assert(bk == bd.push(dh.last()));
            assert forall|p: int, q: int| 0 <= p < q < bk.len() implies (#[trigger] bk[p]).0 <= (
            #[trigger] bk[q]).0 by {
                if q == bk.len() - 1 {
                    assert(bk[p] == bd[p]);
                    let w = choose|w: int| 0 <= w < dh.drop_last().len() && dh.drop_last()[w]
                        == bd[p];
                    assert(dh[w] == bd[p]);
                    assert(dh[w].0 <= dh.last().0);
                }
            }
            assert forall|q: int| 0 <= q < bk.len() implies exists|w: int|
                0 <= w < dh.len() && dh[w] == #[trigger] bk[q] by {
                if q < bk.len() - 1 {
                    let w = choose|w: int| 0 <= w < dh.drop_last().len() && dh.drop_last()[w]
                        == bd[q];
                    assert(dh[w] == bk[q]);
                } else {
                    assert(dh[dh.len() - 1] == bk[q]);
                }
            }
        } else {
            assert(bk == bd);
            assert forall|q: int| 0 <= q < bk.len() implies exists|w: int|
                0 <= w < dh.len() && dh[w] == #[trigger] bk[q] by {
                let w = choose|w: int| 0 <= w < dh.drop_last().len() && dh.drop_last()[w] == bd[q];
                assert(dh[w] == bk[q]);
            }
        }
    }
}

/// One cutoff's logs are sorted and keep between the neighbouring
/// cutoffs.
proof fn lemma_cutoff_logs_bounds(
    kh: Seq<(u64, ValueView)>,
    splits: Seq<u64>,
    th: int,
    j: int,
)
    requires
        lsns_sorted(kh),
        forall|p: int, q: int|
            0 <= p < q < splits.len() ==> (#[trigger] splits[p]) <= (#[trigger] splits[q]),
        0 <= j < splits.len(),
    ensures
        lsns_sorted(spec_pass_cutoff_logs(kh, splits, th, j)),
        forall|q: int|
            0 <= q < spec_pass_cutoff_logs(kh, splits, th, j).len() ==> {
                let e = #[trigger] spec_pass_cutoff_logs(kh, splits, th, j)[q];
                &&& e.0 <= splits[j]
                &&& (j >= 1 ==> e.0 >= splits[j - 1])
            },
{
    let recs = spec_records_since(kh, splits, false, th, j);
    if spec_gen_image(j, splits.len() as int + 1, false, recs, th) && recs > 0 {
    } else {
        lemma_bucket_in_bounds(kh, lo_of(splits, j), Some(splits[j]));
    }
}

/// The keyed cutoff logs from `from` on are sorted by LSN and keep at or
/// below the last cutoff — and, past the first cutoff, at or above the
/// cutoff before `from`.
proof fn lemma_pass_flatten_bounds(
    key: u128,
    kh: Seq<(u64, ValueView)>,
    splits: Seq<u64>,
    th: int,
    from: int,
)
    requires
        lsns_sorted(kh),
        forall|p: int, q: int|
            0 <= p < q < splits.len() ==> (#[trigger] splits[p]) <= (#[trigger] splits[q]),
        splits.len() >= 1,
    ensures
        forall|p: int|
            0 <= p < spec_pass_flatten(key, kh, splits, th, from).len() ==> {
                let e = #[trigger] spec_pass_flatten(key, kh, splits, th, from)[p];
                &&& e.0 == key
                &&& e.1 <= splits[splits.len() - 1]
                &&& (from >= 1 ==> e.1 >= splits[from - 1])
            },
        forall|p: int, q: int|
            0 <= p < q < spec_pass_flatten(key, kh, splits, th, from).len() ==> (
            #[trigger] spec_pass_flatten(key, kh, splits, th, from)[p]).1 <= (
            #[trigger] spec_pass_flatten(key, kh, splits, th, from)[q]).1,
    decreases splits.len() - from,
{
    if from < 0 || from >= splits.len() {
    } else {
        lemma_cutoff_logs_bounds(kh, splits, th, from);
        lemma_pass_flatten_bounds(key, kh, splits, th, from + 1);
        let fl = spec_pass_flatten(key, kh, splits, th, from);
        let head = keyed_entries(key, spec_pass_cutoff_logs(kh, splits, th, from));
        let tail = spec_pass_flatten(key, kh, splits, th, from + 1);
        assert(fl == head + tail);
        assert forall|p: int, q: int| 0 <= p < q < fl.len() implies (#[trigger] fl[p]).1 <= (
        #[trigger] fl[q]).1 by {
            if q < head.len() {
                assert(fl[p] == head[p] && fl[q] == head[q]);
            } else if p >= head.len() {
                assert(fl[p] == tail[p - head.len()] && fl[q] == tail[q - head.len()]);
            } else {
                assert(fl[p] == head[p] && fl[q] == tail[q - head.len()]);
                assert(fl[p].1 <= splits[from as int]);
                assert(fl[q].1 >= splits[(from + 1) - 1]);
            }
        }
    }
}

/// One key's whole delta contribution carries that key, sorted by LSN.
proof fn lemma_pass_key_deltas_sorted(
    key: u128,
    kh: Seq<(u64, ValueView)>,
    splits: Seq<u64>,
    th: int,
)
    requires
        lsns_sorted(kh),
        forall|p: int, q: int|
            0 <= p < q < splits.len() ==> (#[trigger] splits[p]) <= (#[trigger] splits[q]),
        splits.len() >= 1,
    ensures
        forall|p: int|
            0 <= p < spec_pass_key_deltas(key, kh, splits, th).len() ==> (
            #[trigger] spec_pass_key_deltas(key, kh, splits, th)[p]).0 == key,
        forall|p: int, q: int|
            0 <= p < q < spec_pass_key_deltas(key, kh, splits, th).len() ==> (
            #[trigger] spec_pass_key_deltas(key, kh, splits, th)[p]).1 <= (
            #[trigger] spec_pass_key_deltas(key, kh, splits, th)[q]).1,
{
    let from: int = if spec_first_cutoff_is_image(kh, splits) {
        1int
    } else {
        0int
    };
    lemma_pass_flatten_bounds(key, kh, splits, th, from);
    lemma_bucket_in_bounds(kh, Some(splits[splits.len() - 1]), None);
    let kd = spec_pass_key_deltas(key, kh, splits, th);
    let head = spec_pass_flatten(key, kh, splits, th, from);
    let above = keyed_entries(key, spec_bucket(kh, Some(splits[splits.len() - 1]), None));
    assert(kd == head + above);
    assert forall|p: int, q: int| 0 <= p < q < kd.len() implies (#[trigger] kd[p]).1 <= (
    #[trigger] kd[q]).1 by {
        if q < head.len() {
            assert(kd[p] == head[p] && kd[q] == head[q]);
        } else if p >= head.len() {
            assert(kd[p] == above[p - head.len()] && kd[q] == above[q - head.len()]);
            let bk = spec_bucket(kh, Some(splits[splits.len() - 1]), None);
            assert(bk[p - head.len()].0 <= bk[q - head.len()].0);
        } else {
            assert(kd[p] == head[p] && kd[q] == above[q - head.len()]);
            assert(kd[p].1 <= splits[splits.len() - 1]);
            let bk = spec_bucket(kh, Some(splits[splits.len() - 1]), None);
            assert(bk[q - head.len()].0 > splits[splits.len() - 1]);
        }
    }
}

/// The identity of the image layer a GC pass writes at the lowest retain
/// LSN.
pub open spec fn spec_gc_image_key(lowest_retain_lsn: u64) -> crate::layer_map::PersistentLayerKey {
    crate::layer_map::PersistentLayerKey {
        key_range: crate::keys::KeyRange {
            start: crate::keys::KEY_MIN,
            end: crate::keys::KEY_MAX,
        },
        lsn_range: crate::keys::LsnRange {
            start: lowest_retain_lsn,
            end: (lowest_retain_lsn + 1) as u64,
        },
        is_delta: false,
    }
}

/// The lowest retain LSN of a pass: the first retain LSN, or the horizon
/// when no branch retains anything below it.
pub open spec fn spec_lowest_retain(retains: Seq<u64>, gc_cutoff: u64) -> u64 {
    if retains.len() > 0 {
        retains[0]
    } else {
        gc_cutoff
    }
}

/// Every delta value in the map initializes its page by itself. Such a
/// history is self-contained everywhere, so a GC pass over it cannot
/// fail for want of a base image.
pub open spec fn spec_all_values_init(layers: Seq<crate::layer_map::Layer>) -> bool {
    forall|i: int, p: int|
        0 <= i < layers.len() && layers[i] is Delta && 0 <= p < layers[i]->Delta_0.view_entries().len()
            ==> ((#[trigger] layers[i]->Delta_0.view_entries()[p]).2).will_init()
}

/// The entries a GC pass consumes: all entries of the delta layers at or
/// below the cutoff, and every image layer there as one full image per
/// key at the layer's LSN.
pub open spec fn spec_selected_entries(
    layers: Seq<crate::layer_map::Layer>,
    gc_cutoff: u64,
) -> vstd::multiset::Multiset<(u128, u64, ValueView)>
    decreases layers.len(),
{
    if layers.len() == 0 {
        vstd::multiset::Multiset::empty()
    } else {
        let rest = spec_selected_entries(layers.drop_last(), gc_cutoff);
        if layers.last().spec_lsn_range().start <= gc_cutoff {
            match layers.last() {
                crate::layer_map::Layer::Delta(d) => rest.add(d.view_entries().to_multiset()),
                crate::layer_map::Layer::Image(im) => rest.add(
                    im.view_entries().map_values(
                        (
                            |e: (u128, Seq<u8>)| (e.0, im.lsn, ValueView::Image(e.1))
                        ),
                    ).to_multiset(),
                ),
            }
        } else {
            rest
        }
    }
}

/// A delta layer's ranges bound every entry: keys and LSNs start no
/// earlier than the ranges do, and any entry short of the key or LSN
/// maximum lies strictly inside them.
pub open spec fn spec_delta_covers(dl: crate::layer_map::DeltaLayer) -> bool {
    forall|p: int|
        0 <= p < dl.entries@.len() ==> {
            let e = #[trigger] dl.entries@[p];
            &&& dl.key_range.start <= e.0
            &&& dl.lsn_range.start <= e.1
            &&& (e.0 < u128::MAX ==> e.0 < dl.key_range.end)
            &&& (e.1 < u64::MAX ==> e.1 < dl.lsn_range.end)
        }
}

/// Result of one GC-compaction pass, to be committed into the layer map
/// in a single swap.
pub struct GcCompactionResult {
    /// Identities of the consumed layers, to be removed.
    pub layers_to_remove: Vec<crate::layer_map::PersistentLayerKey>,
    /// Identities among the consumed set to keep after all: an identical
    /// replacement already exists under the same generation.
    pub keep_layers: Vec<crate::layer_map::PersistentLayerKey>,
    /// Retention-aware delta layers produced below and above the horizon.
    pub new_deltas: Vec<crate::layer_map::DeltaLayer>,
    /// The image layer at the lowest retain LSN, when one was produced.
    pub new_image: Option<crate::layer_map::ImageLayer>,
}

/// What a GC pass emits, over the sorted merged stream it consumed:
/// grouping the stream by key and piping each key's retention — the
/// image-materialized lowest cutoff to the image writer, every other
/// cutoff log and the above-horizon history to the delta writer — yields
/// exactly the image layer's entries and, when no produced delta was
/// discarded for a duplicate, the concatenation of the new deltas'
/// entries.
pub open spec fn spec_pass_outputs(
    res: GcCompactionResult,
    merged: Seq<(u128, u64, ValueView)>,
    retains: Seq<u64>,
    gc_cutoff: u64,
) -> bool {
    let splits = retains.push(gc_cutoff);
    let th = COMPACTION_DELTA_THRESHOLD as int;
    &&& (res.new_image is Some ==> iw_view(res.new_image.unwrap().entries@) == spec_pass_images(
        merged,
        splits,
        th,
    ))
    &&& ((forall|k: int|
        0 <= k < res.keep_layers@.len() ==> !(#[trigger] res.keep_layers@[k]).is_delta)
        ==> crate::compaction::concat_layer_entries(res.new_deltas@) == spec_pass_deltas(
        merged,
        splits,
        th,
    ))
}

/// Combine compaction with garbage collection: pick every layer at or
/// below the GC horizon, merge them into one `(key, lsn)` stream, run
/// [`generate_key_retention`] per key, and route the results into one
/// image layer at the lowest retain LSN plus delta layers split at the
/// original layer boundaries. A produced layer whose identity already
/// exists in the map under the current generation is discarded and the
/// original kept. Nothing is committed here: the caller installs the
/// result atomically.
///
/// The pass reads the timeline as self-contained: no ancestor image
/// below the selected history is consulted, so every key's retention
/// runs without a base image and a key whose first visible value does
/// not initialize its page fails the pass with `IncompleteHistory`.
/// A timeline with an ancestor would hand [`generate_key_retention`]
/// the inherited page as its base instead. Which retain LSN each piece
/// of history serves is fixed by the cutoff list — the retain LSNs
/// below the horizon, then the horizon — that threads through the
/// per-key retention and through [`spec_pass_outputs`].
#[verifier::rlimit(100)]
pub fn compact_with_gc(
    layer_map: &crate::layer_map::LayerMap,
    gc_cutoff: u64,
    retain_lsns_below_horizon: &Vec<u64>,
    generation: u64,
    cancel: &CancelToken,
    stat: &mut CompactionStatistics,
) -> (r: Result<GcCompactionResult, EngineError>)
    requires
        forall|i: int|
            0 <= i < layer_map.layers@.len() ==> match #[trigger] layer_map.layers@[i] {
                crate::layer_map::Layer::Delta(d) => d.wf()
                    && crate::inmemory_layer::entries_sorted(d.view_entries()),
                crate::layer_map::Layer::Image(im) => im.wf() && im.lsn < u64::MAX,
            },
        forall|p: int, q: int|
            0 <= p < q < retain_lsns_below_horizon@.len() ==> (
            #[trigger] retain_lsns_below_horizon@[p]) <= (#[trigger] retain_lsns_below_horizon@[q]),
        forall|p: int|
            0 <= p < retain_lsns_below_horizon@.len() ==> (#[trigger] retain_lsns_below_horizon@[p])
                < gc_cutoff,
    ensures
        match r {
            Ok(res) => {
                &&& forall|i: int|
                    0 <= i < res.new_deltas@.len() ==> (#[trigger] res.new_deltas@[i]).generation
                        == generation
                &&& forall|i: int|
                    0 <= i < layer_map.layers@.len() && (
                    #[trigger] layer_map.layers@[i]).spec_lsn_range().start <= gc_cutoff
                        ==> crate::layer_map::key_in(
                        res.layers_to_remove@,
                        layer_map.layers@[i].spec_key(),
                    )
                &&& forall|k: int|
                    0 <= k < res.keep_layers@.len() ==> exists|i: int|
                        0 <= i < layer_map.layers@.len() && (
                        #[trigger] layer_map.layers@[i]).spec_key() == (
                        #[trigger] res.keep_layers@[k]) && layer_map.layers@[i].spec_generation()
                            == generation
                &&& (res.new_image is None ==> spec_lowest_retain(
                    retain_lsns_below_horizon@,
                    gc_cutoff,
                ) < u64::MAX && crate::layer_map::key_in(
                    res.keep_layers@,
                    spec_gc_image_key(spec_lowest_retain(retain_lsns_below_horizon@, gc_cutoff)),
                ))
                &&& (!layer_map.spec_contains_key(
                    spec_gc_image_key(spec_lowest_retain(retain_lsns_below_horizon@, gc_cutoff)),
                ) ==> res.new_image is Some)
                &&& exists|merged: Seq<(u128, u64, ValueView)>|
                    {
                        &&& #[trigger] crate::compaction::merged_sorted(merged)
                        &&& merged.to_multiset() == spec_selected_entries(
                            layer_map.layers@,
                            gc_cutoff,
                        )
                        &&& spec_pass_outputs(res, merged, retain_lsns_below_horizon@, gc_cutoff)
                    }
                &&& forall|i: int|
                    0 <= i < res.new_deltas@.len() ==> spec_delta_covers(
                        #[trigger] res.new_deltas@[i],
                    )
                &&& forall|i: int|
                    0 <= i < res.new_deltas@.len() ==> keys_lsns_sorted(
                        (#[trigger] res.new_deltas@[i]).view_entries(),
                    )
                &&& (res.new_image is Some ==> res.new_image.unwrap().generation == generation
                    && res.new_image.unwrap().lsn == (if retain_lsns_below_horizon@.len() > 0 {
                    retain_lsns_below_horizon@[0]
                } else {
                    gc_cutoff
                }) && res.new_image.unwrap().key_range == (crate::keys::KeyRange {
                    start: crate::keys::KEY_MIN,
                    end: crate::keys::KEY_MAX,
                }))
                &&& forall|k: int|
                    0 <= k < res.layers_to_remove@.len() ==> exists|i: int|
                        0 <= i < layer_map.layers@.len() && (
                        #[trigger] layer_map.layers@[i]).spec_key() == (
                        #[trigger] res.layers_to_remove@[k]) && layer_map.layers@[
                        i].spec_lsn_range().start <= gc_cutoff
            },
            Err(e) => e == EngineError::ShuttingDown && cancel.cancelled || e
                == EngineError::IncompleteHistory,
        },
        cancel.cancelled ==> r is Err,
        !cancel.cancelled && spec_all_values_init(layer_map.layers@) ==> r is Ok,
{
    // Step 0: pick all delta and image layers at or below the GC horizon.
    let mut work: Vec<crate::layer_map::DeltaLayer> = Vec::new();
    let mut layers_to_remove: Vec<crate::layer_map::PersistentLayerKey> = Vec::new();
    let mut split_points: Vec<u128> = Vec::new();
    let mut li: usize = 0;
    proof {
        assert(layer_map.layers@.take(0) =~= Seq::<crate::layer_map::Layer>::empty());
        assert(crate::compaction::sum_entry_msets(work@) =~= spec_selected_entries(
            layer_map.layers@.take(0),
            gc_cutoff,
        ));
    }
    while li < layer_map.num_layers()
        invariant
            li <= layer_map.layers@.len(),
            forall|i: int|
                0 <= i < layer_map.layers@.len() ==> match #[trigger] layer_map.layers@[i] {
                    crate::layer_map::Layer::Delta(d) => d.wf()
                        && crate::inmemory_layer::entries_sorted(d.view_entries()),
                    crate::layer_map::Layer::Image(im) => im.wf() && im.lsn < u64::MAX,
                },
            forall|w: int|
                0 <= w < work@.len() ==> (#[trigger] work@[w]).wf()
                    && crate::inmemory_layer::entries_sorted(work@[w].view_entries()),
            forall|k: int|
                0 <= k < layers_to_remove@.len() ==> exists|i: int|
                    0 <= i < layer_map.layers@.len() && (
                    #[trigger] layer_map.layers@[i]).spec_key() == (
                    #[trigger] layers_to_remove@[k]) && layer_map.layers@[
                    i].spec_lsn_range().start <= gc_cutoff,
            forall|i: int|
                0 <= i < li && (#[trigger] layer_map.layers@[i]).spec_lsn_range().start
                    <= gc_cutoff ==> crate::layer_map::key_in(
                    layers_to_remove@,
                    layer_map.layers@[i].spec_key(),
                ),
            spec_all_values_init(layer_map.layers@) ==> forall|w: int, p: int|
                0 <= w < work@.len() && 0 <= p < work@[w].view_entries().len() ==> ((
                #[trigger] work@[w].view_entries()[p]).2).will_init(),
            crate::compaction::sum_entry_msets(work@) == spec_selected_entries(
                layer_map.layers@.take(li as int),
                gc_cutoff,
            ),
            forall|p: int, q: int| 0 <= p < q < split_points@.len() ==> (#[trigger] split_points@[p])
                <= (#[trigger] split_points@[q]),
        decreases layer_map.layers@.len() - li,
    {
        proof {
            assert(layer_map.layers@.take(li + 1).drop_last() =~= layer_map.layers@.take(
                li as int,
            ));
            assert(layer_map.layers@.take(li + 1).last() == layer_map.layers@[li as int]);
        }
        let layer = layer_map.get_layer(li);
        let start = match layer {
            crate::layer_map::Layer::Delta(d) => d.lsn_range.start,
            crate::layer_map::Layer::Image(im) => im.lsn,
        };
        if start <= gc_cutoff {
            let ghost lr_before = layers_to_remove@;
            match layer {
                crate::layer_map::Layer::Delta(d) => {
                    stat.visit_delta_layer(d.file_size);
                    let cl = clone_delta_layer(d);
                    proof {
                        assert(cl.wf()) by {
                            assert(crate::compaction::layer_shape_eq(cl, *d));
                            assert(cl.view_entries().len() == d.view_entries().len());
                            assert(cl.entries@.len() == d.entries@.len());
                            assert forall|p1: int, p2: int|
                                0 <= p1 < p2 < cl.entries@.len()
                                    implies crate::layer_map::entry_le(
                                ((#[trigger] cl.entries@[p1]).0, cl.entries@[p1].1),
                                ((#[trigger] cl.entries@[p2]).0, cl.entries@[p2].1),
                            ) by {
                                assert(cl.view_entries()[p1] == d.view_entries()[p1]);
                                assert(cl.view_entries()[p2] == d.view_entries()[p2]);
                                assert(crate::layer_map::entry_view(cl.entries@[p1])
                                    == cl.view_entries()[p1]);
                                assert(crate::layer_map::entry_view(cl.entries@[p2])
                                    == cl.view_entries()[p2]);
                                assert(crate::layer_map::entry_view(d.entries@[p1])
                                    == d.view_entries()[p1]);
                                assert(crate::layer_map::entry_view(d.entries@[p2])
                                    == d.view_entries()[p2]);
                            }
                            assert forall|p1: int|
                                0 <= p1 < cl.entries@.len() implies cl.key_range.spec_contains(
                                (#[trigger] cl.entries@[p1]).0,
                            ) && cl.lsn_range.spec_contains(cl.entries@[p1].1) by {
                                assert(cl.view_entries()[p1] == d.view_entries()[p1]);
                                assert(crate::layer_map::entry_view(cl.entries@[p1])
                                    == cl.view_entries()[p1]);
                                assert(crate::layer_map::entry_view(d.entries@[p1])
                                    == d.view_entries()[p1]);
                            }
                        }
                    }
                    let ghost work_before = work@;
                    work.push(cl);
                    proof {
                        if spec_all_values_init(layer_map.layers@) {
                            assert forall|w: int, p: int|
                                0 <= w < work@.len() && 0 <= p < work@[w].view_entries().len()
                                    implies ((#[trigger] work@[w].view_entries()[p]).2).will_init()
                                by {
                                if w < work_before.len() {
                                    assert(work@[w] == work_before[w]);
                                } else {
                                    assert(work@[w] == cl);
                                    assert(cl.view_entries()[p] == d.view_entries()[p]);
                                    assert(layer_map.layers@[li as int]->Delta_0 == *d);
                                }
                            }
                        }
                        assert(work@.drop_last() =~= work_before);
                        assert(cl.view_entries() == d.view_entries());
                        assert(crate::compaction::sum_entry_msets(work@) =~= spec_selected_entries(
                            layer_map.layers@.take(li + 1),
                            gc_cutoff,
                        ));
                    }
                    insert_split_point(&mut split_points, d.key_range.start);
                    insert_split_point(&mut split_points, d.key_range.end);
                }
                crate::layer_map::Layer::Image(im) => {
                    stat.visit_image_layer(im.file_size);
                    let cl = image_layer_as_delta(im);
                    let ghost work_before = work@;
                    work.push(cl);
                    proof {
                        if spec_all_values_init(layer_map.layers@) {
                            assert forall|w: int, p: int|
                                0 <= w < work@.len() && 0 <= p < work@[w].view_entries().len()
                                    implies ((#[trigger] work@[w].view_entries()[p]).2).will_init()
                                by {
                                if w < work_before.len() {
                                    assert(work@[w] == work_before[w]);
                                } else {
                                    assert(work@[w] == cl);
                                    assert(cl.view_entries()[p] == im.view_entries().map_values(
                                        (
                                            |e: (u128, Seq<u8>)| (
                                                e.0,
                                                im.lsn,
                                                ValueView::Image(e.1),
                                            )
                                        ),
                                    )[p]);
                                }
                            }
                        }
                        assert(work@.drop_last() =~= work_before);
                        assert(cl.view_entries() =~= im.view_entries().map_values(
                            (
                                |e: (u128, Seq<u8>)| (e.0, im.lsn, ValueView::Image(e.1))
                            ),
                        ));
                        assert(crate::compaction::sum_entry_msets(work@) =~= spec_selected_entries(
                            layer_map.layers@.take(li + 1),
                            gc_cutoff,
                        ));
                    }
                }
            }
            layers_to_remove.push(layer.layer_key());
            proof {
                assert forall|k: int|
                    0 <= k < layers_to_remove@.len() implies exists|i: int|
                        0 <= i < layer_map.layers@.len() && (
                        #[trigger] layer_map.layers@[i]).spec_key() == (
                        #[trigger] layers_to_remove@[k]) && layer_map.layers@[
                        i].spec_lsn_range().start <= gc_cutoff by {
                    if k < lr_before.len() {
                        assert(layers_to_remove@[k] == lr_before[k]);
                    } else {
                        assert(layers_to_remove@[k] == layer_map.layers@[li as int].spec_key());
                    }
                }
                assert forall|i: int|
                    0 <= i < li + 1 && (#[trigger] layer_map.layers@[i]).spec_lsn_range().start
                        <= gc_cutoff implies crate::layer_map::key_in(
                    layers_to_remove@,
                    layer_map.layers@[i].spec_key(),
                ) by {
                    if i < li {
                        let w = choose|w: int|
                            0 <= w < lr_before.len() && lr_before[w] == layer_map.layers@[
                            i].spec_key();
                        assert(layers_to_remove@[w] == layer_map.layers@[i].spec_key());
                    } else {
                        assert(layers_to_remove@.last() == layer_map.layers@[li as int].spec_key());
                    }
                }
            }
        } else {
            proof {
                assert(layer_map.layers@[li as int].spec_lsn_range().start > gc_cutoff);
                assert(crate::compaction::sum_entry_msets(work@) =~= spec_selected_entries(
                    layer_map.layers@.take(li + 1),
                    gc_cutoff,
                ));
            }
        }
        li = li + 1;
    }
    proof {
        assert(layer_map.layers@.take(layer_map.layers@.len() as int) =~= layer_map.layers@);
    }
    let lowest_retain_lsn: u64 = if retain_lsns_below_horizon.len() > 0 {
        retain_lsns_below_horizon[0]
    } else {
        gc_cutoff
    };
    // Step 1: one merged stream over everything selected.
    let n = work.len();
    let merged = match crate::compaction::merge_delta_entries(&work, n, cancel) {
        Ok(m) => m,
        Err(e) => {
            return Err(e);
        }
    };
    // Step 2: per key, produce images and retention-aware deltas.
    let mut delta_values: Vec<(u128, u64, Value)> = Vec::new();
    let mut image_entries: Vec<(u128, Vec<u8>)> = Vec::new();
    let mut new_deltas: Vec<crate::layer_map::DeltaLayer> = Vec::new();
    let mut keep_layers: Vec<crate::layer_map::PersistentLayerKey> = Vec::new();
    let mut split_idx: usize = 0;
    let mut t: usize = 0;
    let ghost gsplits = retain_lsns_below_horizon@.push(gc_cutoff);
    let ghost gth = COMPACTION_DELTA_THRESHOLD as int;
    proof {
        let mev2 = crate::layer_map::entries_view(merged@);
        assert(mev2.skip(0) =~= mev2);
        assert(iw_view(image_entries@) + spec_pass_images(mev2, gsplits, gth) =~= spec_pass_images(
            mev2,
            gsplits,
            gth,
        ));
        assert(crate::compaction::concat_layer_entries(new_deltas@) + crate::layer_map::entries_view(
            delta_values@,
        ) + spec_pass_deltas(mev2, gsplits, gth) =~= spec_pass_deltas(mev2, gsplits, gth));
    }
    while t < merged.len()
        invariant
            t <= merged@.len(),
            crate::compaction::merged_sorted(crate::layer_map::entries_view(merged@)),
            forall|p: int, q: int|
                0 <= p < q < retain_lsns_below_horizon@.len() ==> (
                #[trigger] retain_lsns_below_horizon@[p]) <= (
                #[trigger] retain_lsns_below_horizon@[q]),
            forall|p: int|
                0 <= p < retain_lsns_below_horizon@.len() ==> (
                #[trigger] retain_lsns_below_horizon@[p]) < gc_cutoff,
            forall|i: int|
                0 <= i < new_deltas@.len() ==> (#[trigger] new_deltas@[i]).generation == generation,
            forall|i: int|
                0 <= i < layer_map.layers@.len() && #[trigger] layer_map.layers@[i] is Image
                    ==> layer_map.layers@[i]->Image_0.lsn < u64::MAX,
            split_idx <= split_points@.len(),
            forall|k: int|
                0 <= k < keep_layers@.len() ==> exists|i: int|
                    0 <= i < layer_map.layers@.len() && (
                    #[trigger] layer_map.layers@[i]).spec_key() == (#[trigger] keep_layers@[k])
                        && layer_map.layers@[i].spec_generation() == generation,
            n == work@.len(),
            crate::layer_map::entries_view(merged@).to_multiset()
                == crate::compaction::sum_entry_msets(work@.take(n as int)),
            spec_all_values_init(layer_map.layers@) ==> forall|w: int, p: int|
                0 <= w < work@.len() && 0 <= p < work@[w].view_entries().len() ==> ((
                #[trigger] work@[w].view_entries()[p]).2).will_init(),
            gsplits == retain_lsns_below_horizon@.push(gc_cutoff),
            gth == COMPACTION_DELTA_THRESHOLD as int,
            iw_view(image_entries@) + spec_pass_images(
                crate::layer_map::entries_view(merged@).skip(t as int),
                gsplits,
                gth,
            ) == spec_pass_images(crate::layer_map::entries_view(merged@), gsplits, gth),
            keep_layers@.len() == 0 ==> crate::compaction::concat_layer_entries(new_deltas@)
                + crate::layer_map::entries_view(delta_values@) + spec_pass_deltas(
                crate::layer_map::entries_view(merged@).skip(t as int),
                gsplits,
                gth,
            ) == spec_pass_deltas(crate::layer_map::entries_view(merged@), gsplits, gth),
            forall|k: int| 0 <= k < keep_layers@.len() ==> (#[trigger] keep_layers@[k]).is_delta,
            forall|i: int|
                0 <= i < new_deltas@.len() ==> spec_delta_covers(#[trigger] new_deltas@[i]),
            keys_lsns_sorted(crate::layer_map::entries_view(delta_values@)),
            t < merged@.len() ==> forall|p: int|
                0 <= p < delta_values@.len() ==> (#[trigger] delta_values@[p]).0 < merged@[
                t as int].0,
            forall|i: int|
                0 <= i < new_deltas@.len() ==> keys_lsns_sorted(
                    (#[trigger] new_deltas@[i]).view_entries(),
                ),
        decreases merged@.len() - t,
    {
        if cancel.is_cancelled() {
            return Err(EngineError::ShuttingDown);
        }
        let key: u128 = merged[t].0;
        let mut g: usize = t + 1;
        while g < merged.len() && merged[g].0 == key
            invariant
                t < g <= merged@.len(),
                key == merged@[t as int].0,
                crate::compaction::merged_sorted(crate::layer_map::entries_view(merged@)),
                forall|p: int| t <= p < g ==> (#[trigger] merged@[p]).0 == key,
            decreases merged@.len() - g,
        {
            g = g + 1;
        }
        // this key's full history, in ascending LSN order
        let mut accumulated: Vec<(u128, u64, Value)> = Vec::new();
        let mut j: usize = t;
        while j < g
            invariant
                t <= j <= g <= merged@.len(),
                key == merged@[t as int].0,
                crate::compaction::merged_sorted(crate::layer_map::entries_view(merged@)),
                forall|p: int| t <= p < g ==> (#[trigger] merged@[p]).0 == key,
                accumulated@.len() == j - t,
                forall|p: int|
                    0 <= p < accumulated@.len() ==> (#[trigger] accumulated@[p]).0 == key
                        && accumulated@[p].1 == merged@[t + p].1,
                forall|p: int|
                    0 <= p < accumulated@.len() ==> crate::layer_map::entry_view(
                        #[trigger] accumulated@[p],
                    ) == crate::layer_map::entries_view(merged@)[t + p],
            decreases g - j,
        {
            let (k2, l2, ref v2) = merged[j];
            match v2 {
                Value::Image(_) => stat.visit_image_key(v2),
                Value::WalRecord(_) => stat.visit_wal_key(v2),
            }
            accumulated.push((k2, l2, v2.clone()));
            j = j + 1;
        }
        proof {
            assert forall|p: int, q: int|
                0 <= p < q < triples_view(accumulated@).len() implies (
            #[trigger] triples_view(accumulated@)[p]).0 <= (
            #[trigger] triples_view(accumulated@)[q]).0 by {
                let ev = crate::layer_map::entries_view(merged@);
                assert(crate::compaction::merged_le(ev[t + p], ev[t + q]));
                assert(ev[t + p].0 == key && ev[t + q].0 == key);
                assert(ev[t + p].1 == merged@[t + p].1);
                assert(ev[t + q].1 == merged@[t + q].1);
            }
        }
        let retention = match generate_key_retention(
            key,
            &accumulated,
            gc_cutoff,
            retain_lsns_below_horizon,
            COMPACTION_DELTA_THRESHOLD,
            None,
        ) {
            Ok(kr) => kr,
            Err(e) => {
                // a base image was missing for this key: its lowest merged
                // value is not self-initializing, so some selected delta
                // carried a bare record
                proof {
                    if spec_all_values_init(layer_map.layers@) {
                        broadcast use vstd::seq_lib::group_to_multiset_ensures;

                        let mev2 = crate::layer_map::entries_view(merged@);
                        assert(accumulated@.len() > 0);
                        assert(!spec_has_base(accumulated@, None));
                        assert(!accumulated@[0].2@.will_init());
                        assert(crate::layer_map::entry_view(accumulated@[0]) == mev2[t as int]);
                        assert(!mev2[t as int].2.will_init());
                        assert(mev2.contains(mev2[t as int]));
                        assert(mev2.to_multiset().count(mev2[t as int]) > 0);
                        crate::compaction::lemma_sum_msets_member(
                            work@.take(n as int),
                            mev2[t as int],
                        );
                        let w = choose|w: int|
                            0 <= w < work@.take(n as int).len() && (#[trigger] work@.take(
                                n as int,
                            )[w]).view_entries().contains(mev2[t as int]);
                        let q = choose|q: int|
                            0 <= q < work@[w].view_entries().len() && work@[w].view_entries()[q]
                                == mev2[t as int];
                        assert(work@[w].view_entries()[q].2.will_init());
                        assert(false);
                    }
                }
                return Err(e);
            }
        };
        let ghost dw_before = delta_values@;
        let ghost iw_before = image_entries@;
        let ghost gretention = retention;
        retention.pipe_to(key, &mut delta_values, &mut image_entries, true, stat);
        proof {
            let mev2 = crate::layer_map::entries_view(merged@);
            let seg = mev2.skip(t as int);
            // the group [t, g) is the stream's leading single-key run
            assert forall|p: int| 0 <= p < g - t implies (#[trigger] seg[p]).0 == seg[0].0 by {
                assert(seg[p] == mev2[t + p]);
                assert(mev2[t + p] == crate::layer_map::entry_view(merged@[t + p]));
                assert(seg[0] == mev2[t as int]);
            }
            if g < merged@.len() {
                assert(seg[g - t] == mev2[g as int]);
                assert(mev2[g as int] == crate::layer_map::entry_view(merged@[g as int]));
            }
            assert(seg[0].0 == key);
            lemma_group_len_runs(seg, g - t);
            // the retention's key history is the group's, deduplicated
            let kh = spec_dedup(spec_group_history(seg, g - t));
            assert(triples_view(accumulated@) =~= spec_group_history(seg, g - t));
            assert(spec_key_history(accumulated@) == kh);
            // each cutoff's logs are exactly the pass's cutoff logs
            assert(gretention.below_horizon@.len() == gsplits.len());
            assert forall|j: int|
                0 <= j < gsplits.len() implies lv_view(
                (#[trigger] gretention.below_horizon@[j]).1.0@,
            ) == spec_pass_cutoff_logs(kh, gsplits, gth, j) by {
                assert(spec_retention_shape(
                    gretention.below_horizon@,
                    kh,
                    base_seq(None),
                    gsplits,
                    false,
                    gth,
                    j,
                ));
                let recs = spec_records_since(kh, gsplits, false, gth, j);
                if spec_gen_image(j, gsplits.len() as int + 1, false, recs, gth) && recs > 0 {
                    let img = choose|img: Seq<u8>|
                        lv_view(gretention.below_horizon@[j].1.0@) == seq![
                            (gsplits[j], ValueView::Image(img)),
                        ] && Some(img) == replay_values(
                            lv_values(base_seq(None) + spec_visible_upto(kh, gsplits[j])),
                        );
                    assert(base_seq(None) + spec_visible_upto(kh, gsplits[j])
                        =~= spec_visible_upto(kh, gsplits[j]));
                    assert(Some(img) == replay_values(
                        lv_values(spec_visible_upto(kh, gsplits[j])),
                    ));
                    assert(img == replay_values(
                        lv_values(spec_visible_upto(kh, gsplits[j])),
                    ).unwrap());
                }
            }
            // whether the lowest cutoff was materialized and routed to
            // the image writer
            let recs0 = spec_records_since(kh, gsplits, false, gth, 0);
            assert(recs0 == spec_bucket(kh, lo_of(gsplits, 0), Some(gsplits[0])).len() as int);
            assert(gsplits.len() >= 1);
            assert(spec_gen_image(0, gsplits.len() as int + 1, false, recs0, gth));
            let first_logs = lv_view(gretention.below_horizon@[0].1.0@);
            assert(first_logs == spec_pass_cutoff_logs(kh, gsplits, gth, 0));
            if spec_first_cutoff_is_image(kh, gsplits) {
                assert(pipe_from(gretention) == 1);
            } else {
                assert(first_logs.len() == 0);
                assert(pipe_from(gretention) == 0);
            }
            // the pipe appended exactly this key's contributions
            lemma_pass_flatten_matches(
                key,
                gretention.below_horizon@,
                kh,
                gsplits,
                gth,
                pipe_from(gretention),
            );
            assert(gsplits[gsplits.len() - 1] == gc_cutoff);
            assert(lv_view(gretention.above_horizon.0@) == spec_bucket(
                kh,
                Some(gc_cutoff),
                None,
            ));
            assert(spec_pipe_effect(
                gretention,
                key,
                dw_before,
                delta_values@,
                iw_before,
                image_entries@,
                true,
            ));
            let kd = spec_pass_key_deltas(key, kh, gsplits, gth);
            assert(crate::layer_map::entries_view(delta_values@)
                =~= crate::layer_map::entries_view(dw_before) + kd);
            if spec_first_cutoff_is_image(kh, gsplits) {
                let img0 = replay_values(lv_values(spec_visible_upto(kh, gsplits[0]))).unwrap();
                assert(first_logs[0].1 == ValueView::Image(img0));
                assert(first_logs[0].1->Image_0 == img0);
                assert(iw_view(image_entries@) =~= iw_view(iw_before) + spec_pass_key_image(
                    key,
                    kh,
                    gsplits,
                ));
            } else {
                assert(iw_view(image_entries@) =~= iw_view(iw_before) + spec_pass_key_image(
                    key,
                    kh,
                    gsplits,
                ));
            }
            // the pass streams unfold by exactly this group
            assert(seg.skip(g - t) =~= mev2.skip(g as int));
            assert(spec_pass_deltas(seg, gsplits, gth) == kd + spec_pass_deltas(
                mev2.skip(g as int),
                gsplits,
                gth,
            ));
            assert(spec_pass_images(seg, gsplits, gth) == spec_pass_key_image(key, kh, gsplits)
                + spec_pass_images(mev2.skip(g as int), gsplits, gth));
            assert(iw_view(image_entries@) + spec_pass_images(mev2.skip(g as int), gsplits, gth)
                =~= iw_view(iw_before) + spec_pass_images(seg, gsplits, gth));
            if keep_layers@.len() == 0 {
                assert(crate::compaction::concat_layer_entries(new_deltas@)
                    + crate::layer_map::entries_view(delta_values@) + spec_pass_deltas(
                    mev2.skip(g as int),
                    gsplits,
                    gth,
                ) =~= crate::compaction::concat_layer_entries(new_deltas@)
                    + crate::layer_map::entries_view(dw_before) + spec_pass_deltas(
                    seg,
                    gsplits,
                    gth,
                ));
            }
            // the buffer stays sorted: old entries carry smaller keys,
            // and this key's contribution ascends by LSN
            assert(lsns_sorted(triples_view(accumulated@)));
            lemma_dedup_shape(triples_view(accumulated@));
            assert(lsns_sorted(kh));
            assert forall|p: int, q: int|
                0 <= p < q < gsplits.len() implies (#[trigger] gsplits[p]) <= (
            #[trigger] gsplits[q]) by {
                if q == gsplits.len() - 1 {
                    assert(gsplits[p] == retain_lsns_below_horizon@[p]);
                } else {
                    assert(gsplits[p] == retain_lsns_below_horizon@[p]);
                    assert(gsplits[q] == retain_lsns_below_horizon@[q]);
                }
            }
            lemma_pass_key_deltas_sorted(key, kh, gsplits, gth);
            let dvn = crate::layer_map::entries_view(delta_values@);
            let dvo = crate::layer_map::entries_view(dw_before);
            let kd2 = spec_pass_key_deltas(key, kh, gsplits, gth);
            assert forall|p: int, q: int|
                0 <= p < q < dvn.len() implies crate::layer_map::entry_le(
                ((#[trigger] dvn[p]).0, dvn[p].1),
                ((#[trigger] dvn[q]).0, dvn[q].1),
            ) by {
                if q < dvo.len() {
                    assert(dvn[p] == dvo[p] && dvn[q] == dvo[q]);
                } else if p >= dvo.len() {
                    assert(dvn[p] == kd2[p - dvo.len()] && dvn[q] == kd2[q - dvo.len()]);
                } else {
                    assert(dvn[p] == dvo[p] && dvn[q] == kd2[q - dvo.len()]);
                    assert(dvo[p] == crate::layer_map::entry_view(dw_before[p]));
                    assert(dw_before[p].0 < merged@[t as int].0);
                    assert(dvn[q].0 == key);
                }
            }
            if g < merged@.len() {
                assert(crate::compaction::merged_le(mev2[t as int], mev2[g as int]));
                assert(mev2[g as int] == crate::layer_map::entry_view(merged@[g as int]));
                assert(key < merged@[g as int].0);
                assert forall|p: int|
                    0 <= p < delta_values@.len() implies (#[trigger] delta_values@[p]).0
                    < merged@[g as int].0 by {
                    assert(dvn[p] == crate::layer_map::entry_view(delta_values@[p]));
                    if p < dvo.len() {
                        assert(dvn[p] == dvo[p]);
                        assert(dvo[p] == crate::layer_map::entry_view(dw_before[p]));
                        assert(dw_before[p].0 < merged@[t as int].0);
                        assert(merged@[t as int].0 <= merged@[g as int].0);
                    } else {
                        assert(dvn[p] == kd2[p - dvo.len()]);
                        assert(dvn[p].0 == key);
                    }
                }
            }
        }
        // split the delta output at the original layer boundaries, so the
        // new deltas do not overlap untouched neighbours
        let mut need_split = false;
        while split_idx < split_points.len() && key >= split_points[split_idx]
            invariant
                split_idx <= split_points@.len(),
            decreases split_points@.len() - split_idx,
        {
            split_idx = split_idx + 1;
            need_split = true;
        }
        if need_split && delta_values.len() > 0 {
            let buf = delta_values;
            delta_values = Vec::new();
            let dl = flush_delta_values(buf, lowest_retain_lsn, generation);
            let ghost nd_before = new_deltas@;
            let ghost kl_before = keep_layers@;
            push_or_keep_delta(dl, layer_map, &mut new_deltas, &mut keep_layers, generation, stat);
            proof {
                assert(dl.spec_key().is_delta);
                assert forall|i2: int|
                    0 <= i2 < new_deltas@.len() implies spec_delta_covers(
                    #[trigger] new_deltas@[i2],
                ) by {
                    if new_deltas@ == nd_before.push(dl) {
                        if i2 < nd_before.len() {
                            assert(new_deltas@[i2] == nd_before[i2]);
                        } else {
                            assert(new_deltas@[i2] == dl);
                        }
                    } else {
                        assert(new_deltas@[i2] == nd_before[i2]);
                    }
                }
                assert(keys_lsns_sorted(dl.view_entries()));
                assert forall|i2: int|
                    0 <= i2 < new_deltas@.len() implies keys_lsns_sorted(
                    (#[trigger] new_deltas@[i2]).view_entries(),
                ) by {
                    if new_deltas@ == nd_before.push(dl) {
                        if i2 < nd_before.len() {
                            assert(new_deltas@[i2] == nd_before[i2]);
                        } else {
                            assert(new_deltas@[i2] == dl);
                        }
                    } else {
                        assert(new_deltas@[i2] == nd_before[i2]);
                    }
                }
                if new_deltas@ == nd_before.push(dl) && keep_layers@ == kl_before {
                    assert(nd_before.push(dl).drop_last() =~= nd_before);
                    assert(crate::compaction::concat_layer_entries(new_deltas@)
                        =~= crate::compaction::concat_layer_entries(nd_before)
                        + crate::layer_map::entries_view(buf@));
                }
                assert(crate::layer_map::entries_view(delta_values@) =~= Seq::empty());
                if keep_layers@.len() == 0 {
                    assert(crate::compaction::concat_layer_entries(new_deltas@)
                        + crate::layer_map::entries_view(delta_values@)
                        =~= crate::compaction::concat_layer_entries(nd_before)
                        + crate::layer_map::entries_view(buf@));
                }
            }
        }
        t = g;
    }
    proof {
        let mev2 = crate::layer_map::entries_view(merged@);
        assert(mev2.skip(t as int) =~= Seq::empty());
        assert(iw_view(image_entries@) + spec_pass_images(Seq::empty(), gsplits, gth) =~= iw_view(
            image_entries@,
        ));
        if keep_layers@.len() == 0 {
            assert(crate::compaction::concat_layer_entries(new_deltas@)
                + crate::layer_map::entries_view(delta_values@) + spec_pass_deltas(
                Seq::empty(),
                gsplits,
                gth,
            ) =~= crate::compaction::concat_layer_entries(new_deltas@)
                + crate::layer_map::entries_view(delta_values@));
        }
    }
    if delta_values.len() > 0 {
        let buf = delta_values;
        delta_values = Vec::new();
        let dl = flush_delta_values(buf, lowest_retain_lsn, generation);
        let ghost keep_before = keep_layers@;
        let ghost nd_before = new_deltas@;
        push_or_keep_delta(dl, layer_map, &mut new_deltas, &mut keep_layers, generation, stat);
        proof {
            assert forall|k: int|
                0 <= k < keep_layers@.len() implies exists|i: int|
                    0 <= i < layer_map.layers@.len() && (
                    #[trigger] layer_map.layers@[i]).spec_key() == (#[trigger] keep_layers@[k])
                        && layer_map.layers@[i].spec_generation() == generation by {
                if k < keep_before.len() && keep_layers@[k] == keep_before[k] {
                }
            }
            assert(dl.spec_key().is_delta);
            assert forall|k: int|
                0 <= k < keep_layers@.len() implies (#[trigger] keep_layers@[k]).is_delta by {
                if k < keep_before.len() {
                    assert(keep_layers@[k] == keep_before[k]);
                } else {
                    assert(keep_layers@[k] == dl.spec_key());
                }
            }
            assert forall|i2: int|
                0 <= i2 < new_deltas@.len() implies spec_delta_covers(
                #[trigger] new_deltas@[i2],
            ) by {
                if new_deltas@ == nd_before.push(dl) {
                    if i2 < nd_before.len() {
                        assert(new_deltas@[i2] == nd_before[i2]);
                    } else {
                        assert(new_deltas@[i2] == dl);
                    }
                } else {
                    assert(new_deltas@[i2] == nd_before[i2]);
                }
            }
            assert(keys_lsns_sorted(dl.view_entries()));
            assert forall|i2: int|
                0 <= i2 < new_deltas@.len() implies keys_lsns_sorted(
                (#[trigger] new_deltas@[i2]).view_entries(),
            ) by {
                if new_deltas@ == nd_before.push(dl) {
                    if i2 < nd_before.len() {
                        assert(new_deltas@[i2] == nd_before[i2]);
                    } else {
                        assert(new_deltas@[i2] == dl);
                    }
                } else {
                    assert(new_deltas@[i2] == nd_before[i2]);
                }
            }
            if new_deltas@ == nd_before.push(dl) && keep_layers@ == keep_before {
                assert(nd_before.push(dl).drop_last() =~= nd_before);
                assert(crate::compaction::concat_layer_entries(new_deltas@)
                    =~= crate::compaction::concat_layer_entries(nd_before)
                    + crate::layer_map::entries_view(buf@));
            }
            if keep_layers@.len() == 0 {
                assert(crate::compaction::concat_layer_entries(new_deltas@)
                    =~= crate::compaction::concat_layer_entries(nd_before)
                    + crate::layer_map::entries_view(buf@));
            }
        }
    }
    proof {
        if keep_layers@.len() == 0 {
            assert(crate::layer_map::entries_view(delta_values@) =~= Seq::empty());
            assert(crate::compaction::concat_layer_entries(new_deltas@)
                + crate::layer_map::entries_view(delta_values@)
                =~= crate::compaction::concat_layer_entries(new_deltas@));
            assert(crate::compaction::concat_layer_entries(new_deltas@) == spec_pass_deltas(
                crate::layer_map::entries_view(merged@),
                gsplits,
                gth,
            ));
        }
        assert(iw_view(image_entries@) == spec_pass_images(
            crate::layer_map::entries_view(merged@),
            gsplits,
            gth,
        ));
    }
    // Step 3: the image layer at the lowest retain LSN, unless an
    // identical one already exists in this generation.
    let mut image_size: u64 = 0;
    let mut ii: usize = 0;
    while ii < image_entries.len()
        invariant
            ii <= image_entries@.len(),
        decreases image_entries@.len() - ii,
    {
        let add = image_entries[ii].1.len() as u64;
        image_size = if add <= u64::MAX - image_size {
            image_size + add
        } else {
            u64::MAX
        };
        ii = ii + 1;
    }
    let ghost iw_final = image_entries@;
    let image_layer = crate::layer_map::ImageLayer {
        key_range: crate::keys::KeyRange { start: crate::keys::KEY_MIN, end: crate::keys::KEY_MAX },
        lsn: lowest_retain_lsn,
        entries: image_entries,
        generation,
        file_size: image_size,
    };
    let mut new_image: Option<crate::layer_map::ImageLayer> = None;
    let ghost img_key = spec_gc_image_key(lowest_retain_lsn);
    let ghost keep_pre_image = keep_layers@;
    if lowest_retain_lsn < u64::MAX {
        let ikey = image_layer.layer_key();
        proof {
            assert(ikey == img_key);
        }
        match layer_map.find_key(&ikey) {
            Some(pos) => {
                if layer_map.get_layer(pos).generation() == generation {
                    stat.discard_image_layer();
                    keep_layers.push(ikey);
                    proof {
                        assert(layer_map.layers@[pos as int].spec_key() == img_key
                            && layer_map.layers@[pos as int].spec_generation() == generation);
                        assert(keep_layers@.last() == img_key);
                        assert forall|k: int|
                            0 <= k < keep_layers@.len() implies exists|i: int|
                                0 <= i < layer_map.layers@.len() && (
                                #[trigger] layer_map.layers@[i]).spec_key() == (
                                #[trigger] keep_layers@[k]) && layer_map.layers@[
                                i].spec_generation() == generation by {
                            if k < keep_pre_image.len() {
                                assert(keep_layers@[k] == keep_pre_image[k]);
                            }
                        }
                    }
                } else {
                    stat.produce_image_layer(image_layer.file_size);
                    new_image = Some(image_layer);
                }
            }
            None => {
                stat.produce_image_layer(image_layer.file_size);
                new_image = Some(image_layer);
            }
        }
    } else {
        stat.produce_image_layer(image_layer.file_size);
        new_image = Some(image_layer);
    }
    proof {
        assert(!cancel.cancelled);
        assert(new_image is Some ==> new_image.unwrap().generation == generation
            && new_image.unwrap().lsn == lowest_retain_lsn);
        assert(lowest_retain_lsn == spec_lowest_retain(retain_lsns_below_horizon@, gc_cutoff));
        if new_image is None {
            assert(crate::layer_map::key_in(keep_layers@, img_key)) by {
                assert(keep_layers@.last() == img_key);
            }
        }
        assert(forall|i: int|
            0 <= i < new_deltas@.len() ==> (#[trigger] new_deltas@[i]).generation == generation);
        assert(forall|i: int|
            0 <= i < layer_map.layers@.len() && (
            #[trigger] layer_map.layers@[i]).spec_lsn_range().start <= gc_cutoff
                ==> crate::layer_map::key_in(layers_to_remove@, layer_map.layers@[i].spec_key()));
        assert(forall|k: int|
            0 <= k < layers_to_remove@.len() ==> exists|i: int|
                0 <= i < layer_map.layers@.len() && (#[trigger] layer_map.layers@[i]).spec_key()
                    == (#[trigger] layers_to_remove@[k]) && layer_map.layers@[
                i].spec_lsn_range().start <= gc_cutoff);
        assert(forall|k: int|
            0 <= k < keep_layers@.len() ==> exists|i: int|
                0 <= i < layer_map.layers@.len() && (#[trigger] layer_map.layers@[i]).spec_key()
                    == (#[trigger] keep_layers@[k]) && layer_map.layers@[i].spec_generation()
                    == generation);
        assert(!layer_map.spec_contains_key(img_key) ==> new_image is Some);
        assert(work@.take(n as int) =~= work@);
        assert(crate::compaction::merged_sorted(crate::layer_map::entries_view(merged@)));
        assert(crate::layer_map::entries_view(merged@).to_multiset() == spec_selected_entries(
            layer_map.layers@,
            gc_cutoff,
        ));
        assert(new_image is Some ==> new_image.unwrap().entries@ == iw_final);
        assert(new_image is Some ==> iw_view(new_image.unwrap().entries@) == spec_pass_images(
            crate::layer_map::entries_view(merged@),
            gsplits,
            gth,
        ));
        let res_g = GcCompactionResult {
            layers_to_remove: layers_to_remove,
            keep_layers: keep_layers,
            new_deltas: new_deltas,
            new_image: new_image,
        };
        if forall|k: int|
            0 <= k < res_g.keep_layers@.len() ==> !(#[trigger] res_g.keep_layers@[k]).is_delta {
            // every kept identity so far is a delta's, so none was kept
            if keep_pre_image.len() > 0 {
                assert(res_g.keep_layers@[0] == keep_layers@[0]);
                assert(keep_layers@[0] == keep_pre_image[0]);
                assert(keep_pre_image[0].is_delta);
                assert(!res_g.keep_layers@[0].is_delta);
                assert(false);
            }
            assert(keep_pre_image.len() == 0);
            assert(crate::compaction::concat_layer_entries(res_g.new_deltas@)
                == crate::compaction::concat_layer_entries(new_deltas@));
            assert(crate::compaction::concat_layer_entries(new_deltas@) == spec_pass_deltas(
                crate::layer_map::entries_view(merged@),
                gsplits,
                gth,
            ));
        }
        assert(spec_pass_outputs(
            res_g,
            crate::layer_map::entries_view(merged@),
            retain_lsns_below_horizon@,
            gc_cutoff,
        ));
    }
    Ok(GcCompactionResult { layers_to_remove, keep_layers, new_deltas, new_image })
}

/// Build a delta layer from the drained writer buffer: its key range
/// spans the buffered keys, its LSN range runs from the lowest retain LSN
/// (or the lowest buffered LSN, whichever is lower) past the highest
/// buffered LSN.
fn flush_delta_values(
    buf: Vec<(u128, u64, Value)>,
    lowest_retain_lsn: u64,
    generation: u64,
) -> (dl: crate::layer_map::DeltaLayer)
    requires
        buf@.len() > 0,
    ensures
        dl.generation == generation,
        dl.entries@ == buf@,
        spec_delta_covers(dl),
        keys_lsns_sorted(crate::layer_map::entries_view(buf@)) && (forall|p: int|
            0 <= p < buf@.len() ==> (#[trigger] buf@[p]).0 < u128::MAX && buf@[p].1 < u64::MAX)
            ==> dl.wf(),
{
    let mut min_key: u128 = buf[0].0;
    let mut max_key: u128 = buf[0].0;
    let mut min_lsn: u64 = buf[0].1;
    let mut max_lsn: u64 = buf[0].1;
    let mut t: usize = 1;
    while t < buf.len()
        invariant
            1 <= t <= buf@.len(),
            forall|p: int|
                0 <= p < t ==> min_key <= (#[trigger] buf@[p]).0 <= max_key && min_lsn
                    <= buf@[p].1 <= max_lsn,
            exists|w: int| 0 <= w < buf@.len() && (#[trigger] buf@[w]).0 == max_key,
            exists|w: int| 0 <= w < buf@.len() && (#[trigger] buf@[w]).1 == max_lsn,
        decreases buf@.len() - t,
    {
        let (k, l, _) = &buf[t];
        if *k < min_key {
            min_key = *k;
        }
        if *k > max_key {
            max_key = *k;
        }
        if *l < min_lsn {
            min_lsn = *l;
        }
        if *l > max_lsn {
            max_lsn = *l;
        }
        t = t + 1;
    }
    let start_lsn = if lowest_retain_lsn < min_lsn {
        lowest_retain_lsn
    } else {
        min_lsn
    };
    let end_lsn = if max_lsn < u64::MAX {
        max_lsn + 1
    } else {
        u64::MAX
    };
    let end_key = if max_key < u128::MAX {
        max_key + 1
    } else {
        u128::MAX
    };
    let mut size: u64 = 0;
    let mut s: usize = 0;
    while s < buf.len()
        invariant
            s <= buf@.len(),
        decreases buf@.len() - s,
    {
        let add128: u128 = crate::compaction::estimated_size_of_value(&buf[s].2) as u128
            + crate::compaction::KEY_SIZE as u128;
        let add: u64 = if add128 > 0xffffffffffffffffu128 {
            u64::MAX
        } else {
            add128 as u64
        };
        size = if add <= u64::MAX - size {
            size + add
        } else {
            u64::MAX
        };
        s = s + 1;
    }
    let dl = crate::layer_map::DeltaLayer {
        key_range: crate::keys::KeyRange { start: min_key, end: end_key },
        lsn_range: crate::keys::LsnRange { start: start_lsn, end: end_lsn },
        entries: buf,
        generation,
        file_size: size,
    };
    proof {
        if keys_lsns_sorted(crate::layer_map::entries_view(dl.entries@)) && (forall|p: int|
            0 <= p < dl.entries@.len() ==> (#[trigger] dl.entries@[p]).0 < u128::MAX
                && dl.entries@[p].1 < u64::MAX) {
            assert(max_key < u128::MAX);
            assert(max_lsn < u64::MAX);
            assert forall|i: int, j: int|
                0 <= i < j < dl.entries@.len() implies crate::layer_map::entry_le(
                ((#[trigger] dl.entries@[i]).0, dl.entries@[i].1),
                ((#[trigger] dl.entries@[j]).0, dl.entries@[j].1),
            ) by {
                let ev = crate::layer_map::entries_view(dl.entries@);
                assert(ev[i] == crate::layer_map::entry_view(dl.entries@[i]));
                assert(ev[j] == crate::layer_map::entry_view(dl.entries@[j]));
            }
            assert forall|i: int|
                0 <= i < dl.entries@.len() implies dl.key_range.spec_contains(
                (#[trigger] dl.entries@[i]).0,
            ) && dl.lsn_range.spec_contains(dl.entries@[i].1) by {
                assert(min_key <= dl.entries@[i].0 <= max_key);
                assert(min_lsn <= dl.entries@[i].1 <= max_lsn);
            }
            assert(dl.wf());
        }
    }
    dl
}

/// The first layer of the map carrying this identity under the current
/// generation, if the first identity match does.
pub open spec fn spec_first_key_match(
    layers: Seq<crate::layer_map::Layer>,
    key: crate::layer_map::PersistentLayerKey,
    generation: u64,
) -> Option<int>
    decreases layers.len(),
{
    if layers.len() == 0 {
        None
    } else if layers[0].spec_key() == key {
        if layers[0].spec_generation() == generation {
            Some(0int)
        } else {
            None
        }
    } else {
        match spec_first_key_match(layers.drop_first(), key, generation) {
            Some(i) => Some(i + 1),
            None => None,
        }
    }
}

/// A first identity match under the current generation is what
/// [`spec_first_key_match`] names.
proof fn lemma_first_key_match(
    layers: Seq<crate::layer_map::Layer>,
    key: crate::layer_map::PersistentLayerKey,
    generation: u64,
    pos: int,
)
    requires
        0 <= pos < layers.len(),
        layers[pos].spec_key() == key,
        forall|j: int| 0 <= j < pos ==> (#[trigger] layers[j]).spec_key() != key,
        layers[pos].spec_generation() == generation,
    ensures
        spec_first_key_match(layers, key, generation) == Some(pos),
    decreases pos,
{
    if pos > 0 {
        assert forall|j: int| 0 <= j < pos - 1 implies (#[trigger] layers.drop_first()[j]).spec_key()
            != key by {
            assert(layers.drop_first()[j] == layers[j + 1]);
        }
        assert(layers.drop_first()[pos - 1] == layers[pos]);
        lemma_first_key_match(layers.drop_first(), key, generation, pos - 1);
    }
}

/// When every cutoff's actual logs equal the pass's cutoff logs, their
/// keyed flattenings agree too.
proof fn lemma_pass_flatten_matches(
    key: u128,
    below: Seq<(u64, KeyLogAtLsn)>,
    kh: Seq<(u64, ValueView)>,
    splits: Seq<u64>,
    threshold: int,
    from: int,
)
    requires
        below.len() == splits.len(),
        forall|j: int|
            0 <= j < splits.len() ==> lv_view((#[trigger] below[j]).1.0@)
                == spec_pass_cutoff_logs(kh, splits, threshold, j),
    ensures
        flatten_keyed(key, below, from) == spec_pass_flatten(key, kh, splits, threshold, from),
    decreases splits.len() - from,
{
    if 0 <= from && from < splits.len() {
        lemma_pass_flatten_matches(key, below, kh, splits, threshold, from + 1);
    }
}

/// Install a freshly written delta layer, unless a layer of the same
/// identity already exists under the current generation: then the
/// original is kept and the new one discarded.
fn push_or_keep_delta(
    dl: crate::layer_map::DeltaLayer,
    layer_map: &crate::layer_map::LayerMap,
    new_deltas: &mut Vec<crate::layer_map::DeltaLayer>,
    keep_layers: &mut Vec<crate::layer_map::PersistentLayerKey>,
    generation: u64,
    stat: &mut CompactionStatistics,
)
    requires
        dl.generation == generation,
        forall|i: int|
            0 <= i < old(new_deltas)@.len() ==> (#[trigger] old(new_deltas)@[i]).generation
                == generation,
        forall|i: int|
            0 <= i < layer_map.layers@.len() && #[trigger] layer_map.layers@[i] is Image
                ==> layer_map.layers@[i]->Image_0.lsn < u64::MAX,
    ensures
        forall|i: int|
            0 <= i < final(new_deltas)@.len() ==> (#[trigger] final(new_deltas)@[i]).generation
                == generation,
        forall|k: int|
            0 <= k < final(keep_layers)@.len() ==> (k < old(keep_layers)@.len() && (
            #[trigger] final(keep_layers)@[k]) == old(keep_layers)@[k]) || exists|i: int|
                0 <= i < layer_map.layers@.len() && (#[trigger] layer_map.layers@[i]).spec_key()
                    == final(keep_layers)@[k] && layer_map.layers@[i].spec_generation()
                    == generation,
        final(new_deltas)@ == old(new_deltas)@.push(dl) && final(keep_layers)@
            == old(keep_layers)@ || final(new_deltas)@ == old(new_deltas)@ && final(keep_layers)@
            == old(keep_layers)@.push(dl.spec_key()),
        spec_first_key_match(layer_map.layers@, dl.spec_key(), generation) is None
            ==> final(new_deltas)@ == old(new_deltas)@.push(dl),
        final(keep_layers)@ != old(keep_layers)@ ==> spec_first_key_match(
            layer_map.layers@,
            dl.spec_key(),
            generation,
        ) is Some,
{
    let dkey = dl.layer_key();
    match layer_map.find_key(&dkey) {
        Some(pos) => {
            if layer_map.get_layer(pos).generation() == generation {
                stat.discard_delta_layer();
                keep_layers.push(dkey);
                proof {
                    assert(layer_map.layers@[pos as int].spec_key() == dkey
                        && layer_map.layers@[pos as int].spec_generation() == generation);
                    lemma_first_key_match(layer_map.layers@, dkey, generation, pos as int);
                }
                return ;
            }
        }
        None => {}
    }
    stat.produce_delta_layer(dl.file_size);
    let ghost before = new_deltas@;
    new_deltas.push(dl);
    proof {
        assert forall|i2: int|
            0 <= i2 < new_deltas@.len() implies (#[trigger] new_deltas@[i2]).generation
            == generation by {
            if i2 < before.len() {
                assert(new_deltas@[i2] == before[i2]);
            }
        }
    }
}

/// Insert a key boundary into the sorted list of split points.
fn insert_split_point(points: &mut Vec<u128>, key: u128)
    requires
        forall|p: int, q: int|
            0 <= p < q < old(points)@.len() ==> (#[trigger] old(points)@[p]) <= (
            #[trigger] old(points)@[q]),
    ensures
        forall|p: int, q: int|
            0 <= p < q < final(points)@.len() ==> (#[trigger] final(points)@[p]) <= (
            #[trigger] final(points)@[q]),
{
    let mut pos: usize = 0;
    while pos < points.len() && points[pos] < key
        invariant
            pos <= points@.len(),
            points@ == old(points)@,
            forall|p: int| 0 <= p < pos ==> (#[trigger] points@[p]) < key,
        decreases points@.len() - pos,
    {
        pos = pos + 1;
    }
    let ghost before = points@;
    let ghost at_end = pos == points@.len();
    proof {
        if !at_end {
            assert(before[pos as int] >= key);
        }
    }
    points.insert(pos, key);
    proof {
        assert forall|p: int, q: int|
            0 <= p < q < points@.len() implies (#[trigger] points@[p]) <= (
        #[trigger] points@[q]) by {
            assert(points@ == before.insert(pos as int, key));
            before.insert_ensures(pos as int, key);
            if p == pos && q > pos {
                assert(points@[q] == before[q - 1]);
                assert(q - 1 >= pos);
                if q - 1 > pos {
                    assert(before[pos as int] <= before[q - 1]);
                }
            }
        }
    }
}

/// If a prefix of a history replays to nothing and ends in a
/// non-initializing record, so does every extension of it — unless a
/// later value initializes. Used contrapositively: a defined replay of
/// the whole history forces every prefix ending in a bare record chain to
/// be preceded by an initializing value.
proof fn lemma_replay_none_extends(prefix: Seq<ValueView>, whole: Seq<ValueView>, t: int)
    requires
        0 <= t <= whole.len(),
        prefix == whole.take(t),
        replay_values(prefix) is None,
        replay_values(whole) is Some,
    ensures
        exists|p: int| t <= p < whole.len() && (#[trigger] whole[p]).will_init(),
    decreases whole.len() - t,
{
    if t == whole.len() {
        assert(whole.take(t) =~= whole);
    } else {
        let nxt = whole.take(t + 1);
        assert(nxt.drop_last() =~= prefix);
        assert(nxt.last() == whole[t]);
        if whole[t].will_init() {
        } else {
            lemma_replay_none_extends(nxt, whole, t + 1);
            let p = choose|p: int| t + 1 <= p < whole.len() && (#[trigger] whole[p]).will_init();
            assert(whole[p].will_init());
        }
    }
}

} // verus!
