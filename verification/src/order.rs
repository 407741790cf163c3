//! The order of text: character by character, a proper prefix first —
//! the order `str` comparison gives, since UTF-8 keeps the order of the
//! characters it encodes. Reports that list items do so in this order of
//! their ids.

use vstd::prelude::*;
use vstd::set_lib::{lemma_int_range, lemma_len_subset, set_int_range};

use crate::model::WorkItemId;
use crate::text::chars_of;

verus! {

/// Whether `a` comes strictly before `b`.
pub open spec fn text_lt(a: Seq<char>, b: Seq<char>) -> bool
    decreases a.len(),
{
    if a.len() == 0 {
        b.len() > 0
    } else if b.len() == 0 {
        false
    } else if a[0] != b[0] {
        a[0] < b[0]
    } else {
        text_lt(a.drop_first(), b.drop_first())
    }
}

pub proof fn lemma_text_lt_irreflexive(a: Seq<char>)
    ensures
        !text_lt(a, a),
    decreases a.len(),
{
    if a.len() > 0 {
        lemma_text_lt_irreflexive(a.drop_first());
    }
}

pub proof fn lemma_text_lt_total(a: Seq<char>, b: Seq<char>)
    ensures
        a == b || text_lt(a, b) || text_lt(b, a),
    decreases a.len(),
{
    if a.len() > 0 && b.len() > 0 && a[0] == b[0] {
        lemma_text_lt_total(a.drop_first(), b.drop_first());
        if a.drop_first() == b.drop_first() {
            assert(a =~= seq![a[0]] + a.drop_first());
            assert(b =~= seq![b[0]] + b.drop_first());
        }
    } else if a.len() == 0 && b.len() == 0 {
        assert(a =~= b);
    }
}

pub proof fn lemma_text_lt_asymmetric(a: Seq<char>, b: Seq<char>)
    ensures
        !(text_lt(a, b) && text_lt(b, a)),
    decreases a.len(),
{
    if a.len() > 0 && b.len() > 0 && a[0] == b[0] {
        lemma_text_lt_asymmetric(a.drop_first(), b.drop_first());
    }
}

pub proof fn lemma_text_lt_transitive(a: Seq<char>, b: Seq<char>, c: Seq<char>)
    requires
        text_lt(a, b),
        text_lt(b, c),
    ensures
        text_lt(a, c),
    decreases a.len(),
{
    if a.len() > 0 && b.len() > 0 && c.len() > 0 && a[0] == b[0] && b[0] == c[0] {
        lemma_text_lt_transitive(a.drop_first(), b.drop_first(), c.drop_first());
    }
}

/// Whether `a` comes strictly before `b`.
pub fn text_less(a: &str, b: &str) -> (r: bool)
    ensures
        r == text_lt(a@, b@),
{
    let x = chars_of(a);
    let y = chars_of(b);
    let mut i: usize = 0;
    assert(a@.skip(0) =~= a@);
    assert(b@.skip(0) =~= b@);
    while i < x.len() && i < y.len()
        invariant
            x@ == a@,
            y@ == b@,
            i <= x@.len(),
            i <= y@.len(),
            text_lt(a@, b@) == text_lt(a@.skip(i as int), b@.skip(i as int)),
        decreases x@.len() - i,
    {
        proof {
            let s = a@.skip(i as int);
            let t = b@.skip(i as int);
            assert(s.drop_first() =~= a@.skip(i + 1));
            assert(t.drop_first() =~= b@.skip(i + 1));
        }
        if x[i] != y[i] {
            return x[i] < y[i];
        }
        i = i + 1;
    }
    i == x.len() && i < y.len()
}

// ── Listing positions in id order ───────────────────────────────────

pub open spec fn id_views(ids: Seq<WorkItemId>) -> Seq<Seq<char>> {
    ids.map_values(|id: WorkItemId| id@)
}

/// No two ids are the same.
pub open spec fn distinct_ids(ids: Seq<Seq<char>>) -> bool {
    forall|i: int, j: int| 0 <= i < ids.len() && 0 <= j < ids.len() && i != j ==> ids[i] != ids[j]
}

/// `order` lists, in increasing order of id, exactly the positions whose
/// `selected` flag is set.
pub open spec fn lists_in_id_order(ids: Seq<Seq<char>>, selected: Seq<bool>, order: Seq<usize>) -> bool {
    &&& forall|k: int| 0 <= k < order.len() ==> (#[trigger] order[k]) < ids.len() && selected[order[k] as int]
    &&& forall|k: int, l: int| 0 <= k < l < order.len() ==> text_lt(ids[#[trigger] order[k] as int], ids[#[trigger] order[l] as int])
    &&& forall|p: int| 0 <= p < ids.len() && selected[p] ==> exists|k: int| 0 <= k < order.len() && (#[trigger] order[k]) == p
}

proof fn lemma_order_short(order: Seq<usize>, n: int, missing: int)
    requires
        0 <= missing < n,
        order.no_duplicates(),
        forall|k: int| 0 <= k < order.len() ==> (#[trigger] order[k]) < n && order[k] != missing,
    ensures
        order.len() < n,
{
    let as_int = order.map_values(|p: usize| p as int);
    assert forall|a: int, b: int| 0 <= a < as_int.len() && 0 <= b < as_int.len() && a != b implies as_int[a] != as_int[b] by {
        assert(order[a] != order[b]);
    }
    assert(as_int.no_duplicates());
    as_int.unique_seq_to_set();
    let range = set_int_range(0, n).remove(missing);
    lemma_int_range(0, n);
    assert forall|x: int| as_int.to_set().contains(x) implies range.contains(x) by {
        let k = choose|k: int| 0 <= k < as_int.len() && as_int[k] == x;
        assert(order[k] < n && order[k] != missing);
    }
    lemma_len_subset(as_int.to_set(), range);
}

/// The positions whose `selected` flag is set, in increasing order of id.
pub fn positions_in_id_order(ids: &Vec<WorkItemId>, selected: &Vec<bool>) -> (r: Vec<usize>)
    requires
        selected@.len() == ids@.len(),
        distinct_ids(id_views(ids@)),
    ensures
        lists_in_id_order(id_views(ids@), selected@, r@),
{
    let ghost views = id_views(ids@);
    let n = ids.len();
    let mut out: Vec<usize> = Vec::new();
    let mut last: Option<usize> = None;
    loop
        invariant
            n == ids@.len(),
            views == id_views(ids@),
            selected@.len() == n,
            distinct_ids(views),
            forall|k: int| 0 <= k < out@.len() ==> (#[trigger] out@[k]) < n && selected@[out@[k] as int],
            forall|k: int, l: int| 0 <= k < l < out@.len() ==> text_lt(views[#[trigger] out@[k] as int], views[#[trigger] out@[l] as int]),
            match last {
                None => out@.len() == 0,
                Some(l) => out@.len() > 0 && out@.last() == l && l < n,
            },
            forall|p: int|
                0 <= p < n && selected@[p] && (match last {
                    None => false,
                    Some(l) => !text_lt(views[l as int], views[p]),
                }) ==> exists|k: int| 0 <= k < out@.len() && (#[trigger] out@[k]) == p,
        ensures
            lists_in_id_order(id_views(ids@), selected@, out@),
        decreases n - out@.len(),
    {
        // The smallest selected id after the last one listed.
        let mut best: Option<usize> = None;
        let mut p: usize = 0;
        while p < n
            invariant
                n == ids@.len(),
                views == id_views(ids@),
                selected@.len() == n,
                distinct_ids(views),
                p <= n,
                match last {
                    None => true,
                    Some(l) => l < n,
                },
                match best {
                    Some(b) => b < p && selected@[b as int] && (match last {
                        None => true,
                        Some(l) => text_lt(views[l as int], views[b as int]),
                    }) && forall|q: int|
                        0 <= q < p && selected@[q] && (match last {
                            None => true,
                            Some(l) => text_lt(views[l as int], views[q]),
                        }) ==> q == b || text_lt(views[b as int], views[q]),
                    None => forall|q: int|
                        0 <= q < p && selected@[q] ==> !(match last {
                            None => true,
                            Some(l) => text_lt(views[l as int], views[q]),
                        }),
                },
            decreases n - p,
        {
            if selected[p] {
                let after_last = match last {
                    None => true,
                    Some(l) => text_less(ids[l].as_str(), ids[p].as_str()),
                };
                if after_last {
                    match best {
                        None => {
                            best = Some(p);
                        },
                        Some(b) => {
                            if text_less(ids[p].as_str(), ids[b].as_str()) {
                                proof {
                                    assert forall|q: int|
                                        0 <= q < p + 1 && selected@[q] && (match last {
                                            None => true,
                                            Some(l) => text_lt(views[l as int], views[q]),
                                        }) implies q == p || text_lt(views[p as int], views[q]) by {
                                        if q != p && q != b {
                                            lemma_text_lt_transitive(views[p as int], views[b as int], views[q]);
                                        }
                                    }
                                }
                                best = Some(p);
                            } else {
                                proof {
                                    lemma_text_lt_total(views[p as int], views[b as int]);
                                    assert(views[p as int] != views[b as int]);
                                }
                            }
                        },
                    }
                }
            }
            p = p + 1;
        }
        match best {
            None => {
                proof {
                    assert forall|q: int| 0 <= q < n && selected@[q] implies exists|k: int|
                        0 <= k < out@.len() && (#[trigger] out@[k]) == q by {
                        match last {
                            None => {},
                            Some(l) => {
                                lemma_text_lt_asymmetric(views[l as int], views[q]);
                            },
                        }
                    }
                }
                break;
            },
            Some(b) => {
                proof {
                    // `b` is not listed yet: every listed id is at most the last one.
                    assert forall|k: int| 0 <= k < out@.len() implies (#[trigger] out@[k]) != b by {
                        if let Some(l) = last {
                            if out@[k] == b {
                                if k < out@.len() - 1 {
                                    assert(text_lt(views[out@[k] as int], views[out@[out@.len() - 1] as int]));
                                    lemma_text_lt_asymmetric(views[l as int], views[b as int]);
                                } else {
                                    lemma_text_lt_irreflexive(views[b as int]);
                                }
                            }
                        }
                    }
                    assert(out@.no_duplicates()) by {
                        assert forall|a: int, c: int| 0 <= a < out@.len() && 0 <= c < out@.len() && a != c implies out@[a] != out@[c] by {
                            if a < c {
                                assert(text_lt(views[out@[a] as int], views[out@[c] as int]));
                                if out@[a] == out@[c] {
                                    lemma_text_lt_irreflexive(views[out@[a] as int]);
                                }
                            } else {
                                assert(text_lt(views[out@[c] as int], views[out@[a] as int]));
                                if out@[a] == out@[c] {
                                    lemma_text_lt_irreflexive(views[out@[a] as int]);
                                }
                            }
                        }
                    }
                    lemma_order_short(out@, n as int, b as int);
                }
                let ghost before = out@;
                out.push(b);
                proof {
                    assert forall|k: int, l: int| 0 <= k < l < out@.len() implies text_lt(views[#[trigger] out@[k] as int], views[#[trigger] out@[l] as int]) by {
                        if l == out@.len() - 1 && k < l {
                            if let Some(last_pos) = last {
                                if k < before.len() - 1 {
                                    assert(text_lt(views[before[k] as int], views[before[before.len() - 1] as int]));
                                    lemma_text_lt_transitive(views[before[k] as int], views[last_pos as int], views[b as int]);
                                }
                            }
                        } else {
                            assert(out@[k] == before[k] && out@[l] == before[l]);
                        }
                    }
                    assert forall|q: int|
                        0 <= q < n && selected@[q] && !text_lt(views[b as int], views[q]) implies exists|k: int|
                        0 <= k < out@.len() && (#[trigger] out@[k]) == q by {
                        if q == b {
                            assert(out@[out@.len() - 1] == q);
                        } else {
                            lemma_text_lt_total(views[b as int], views[q]);
                            match last {
                                None => {
                                    assert(false);
                                },
                                Some(l) => {
                                    if text_lt(views[l as int], views[q]) {
                                        assert(false);
                                    }
                                    let k = choose|k: int| 0 <= k < before.len() && before[k] == q;
                                    assert(out@[k] == q);
                                }
                            }
                        }
                    }
                }
                last = Some(b);
            },
        }
    }
    out
}

} // verus!
