//! The public-access list merger: additions are merged into the existing
//! flat list, the result sorted and deduplicated, and a flag reports
//! whether anything genuinely new arrived. Existing entries are never
//! removed.

use vstd::prelude::*;

use crate::registry::{Registry, resolve_sources, resolve_tokens};
use crate::tags::{find_tag_value, last_tag_value};
use crate::text::{chars_lt, lemma_chars_le_antisym, lemma_chars_le_total, lemma_chars_le_trans,
    split_chars, str_eq, str_lt};

verus! {

/// Strictly sorted, hence duplicate-free: each entry comes strictly before
/// every later one.
pub open spec fn strictly_sorted(s: Seq<Seq<char>>) -> bool {
    forall|i: int, j: int| 0 <= i < j < s.len() ==> chars_lt(#[trigger] s[i], #[trigger] s[j])
}

/// The merged list holds exactly the union of the two input lists.
pub open spec fn merged_union(m: Seq<Seq<char>>, cur: Seq<Seq<char>>, adds: Seq<Seq<char>>) -> bool {
    forall|y: Seq<char>| #[trigger] m.contains(y) <==> (cur.contains(y) || adds.contains(y))
}

/// Whether any addition is genuinely new to the current list.
pub open spec fn any_new(adds: Seq<Seq<char>>, cur: Seq<Seq<char>>) -> bool {
    exists|k: int| 0 <= k < adds.len() && !cur.contains(#[trigger] adds[k])
}

/// Whether the list holds this exact string.
pub fn contains_str(v: &Vec<String>, x: &str) -> (r: bool)
    ensures
        r == v.deep_view().contains(x@),
{
    let mut i: usize = 0;
    while i < v.len()
        invariant
            0 <= i <= v@.len(),
            forall|j: int| 0 <= j < i ==> v.deep_view()[j] != x@,
        decreases v@.len() - i,
    {
        if str_eq(v[i].as_str(), x) {
            proof {
                assert(v.deep_view()[i as int] == x@);
            }
            return true;
        }
        i = i + 1;
    }
    proof {
        if v.deep_view().contains(x@) {
            let k = choose|k: int| 0 <= k < v.deep_view().len() && v.deep_view()[k] == x@;
            assert(v.deep_view()[k] == x@);
        }
    }
    false
}

/// Inserts into a strictly sorted list, keeping it sorted and adding
/// nothing but the new entry; a duplicate leaves the list as it is.
fn sorted_insert(v: &mut Vec<String>, x: String)
    requires
        strictly_sorted(old(v).deep_view()),
    ensures
        strictly_sorted(final(v).deep_view()),
        forall|y: Seq<char>| #[trigger]
            final(v).deep_view().contains(y) <==> (old(v).deep_view().contains(y) || y == x@),
{
    let ghost old_d = v.deep_view();
    let mut i: usize = 0;
    loop
        invariant
            v@ == old(v)@,
            old_d == v.deep_view(),
            strictly_sorted(old_d),
            0 <= i <= v@.len(),
            forall|j: int| 0 <= j < i ==> chars_lt(#[trigger] old_d[j], x@),
        ensures
            i <= v@.len(),
            forall|j: int| 0 <= j < i ==> chars_lt(#[trigger] old_d[j], x@),
            i < v@.len() ==> !chars_lt(old_d[i as int], x@),
        decreases v@.len() - i,
    {
        if i == v.len() {
            break ;
        }
        if !str_lt(v[i].as_str(), x.as_str()) {
            break ;
        }
        i = i + 1;
    }
    if i < v.len() && str_eq(v[i].as_str(), x.as_str()) {
        proof {
            assert(old_d[i as int] == x@);
            assert(old_d.contains(x@));
        }
    } else {
        proof {
            if i < v@.len() {
                lemma_chars_le_total(old_d[i as int], x@);
            }
        }
        v.insert(i, x);
        proof {
            let nd = v.deep_view();
            assert(nd =~= old_d.take(i as int).push(x@) + old_d.skip(i as int));
            assert forall|a: int, b: int| 0 <= a < b < nd.len() implies chars_lt(nd[a], nd[b]) by {
                if a < i && b == i {
                    assert(nd[a] == old_d[a]);
                    assert(chars_lt(old_d[a], x@));
                } else if a < i && b > i {
                    assert(nd[a] == old_d[a] && nd[b] == old_d[b - 1]);
                } else if a == i && b > i {
                    assert(nd[b] == old_d[b - 1]);
                    assert(!chars_lt(old_d[i as int], x@));
                    assert(old_d[i as int] != x@);
                    assert(chars_lt(x@, old_d[i as int]));
                    if b - 1 > i {
                        assert(chars_lt(old_d[i as int], old_d[b - 1]));
                        lemma_chars_le_trans(x@, old_d[i as int], old_d[b - 1]);
                        if x@ == old_d[b - 1] {
                            lemma_chars_le_antisym(x@, old_d[i as int]);
                        }
                    }
                } else if a > i {
                    assert(nd[a] == old_d[a - 1] && nd[b] == old_d[b - 1]);
                }
            }
            assert forall|y: Seq<char>| #[trigger]
                nd.contains(y) <==> (old_d.contains(y) || y == x@) by {
                if nd.contains(y) {
                    let k = choose|k: int| 0 <= k < nd.len() && nd[k] == y;
                    if k < i {
                        assert(old_d[k] == y);
                    } else if k > i {
                        assert(old_d[k - 1] == y);
                    }
                }
                if old_d.contains(y) {
                    let k = choose|k: int| 0 <= k < old_d.len() && old_d[k] == y;
                    if k < i {
                        assert(nd[k] == y);
                    } else {
                        assert(nd[k + 1] == y);
                    }
                }
                if y == x@ {
                    assert(nd[i as int] == y);
                }
            }
        }
    }
}

/// Merges `additions` into `current`: the first result is the sorted,
/// deduplicated union of the two, so nothing is ever removed, and the flag
/// is set exactly when some addition was not already present.
pub fn merge_cidr_list(current: &Vec<String>, additions: &Vec<String>) -> (r: (Vec<String>, bool))
    ensures
        strictly_sorted(r.0.deep_view()),
        merged_union(r.0.deep_view(), current.deep_view(), additions.deep_view()),
        r.1 == any_new(additions.deep_view(), current.deep_view()),
{
    let ghost cd = current.deep_view();
    let ghost ad = additions.deep_view();
    let mut merged: Vec<String> = Vec::new();
    let mut i: usize = 0;
    proof {
        assert(merged.deep_view() =~= Seq::<Seq<char>>::empty());
    }
    while i < current.len()
        invariant
            cd == current.deep_view(),
            cd.len() == current@.len(),
            0 <= i <= current@.len(),
            strictly_sorted(merged.deep_view()),
            forall|y: Seq<char>| #[trigger]
                merged.deep_view().contains(y) <==> (exists|k: int| 0 <= k < i && cd[k] == y),
        decreases current@.len() - i,
    {
        let ghost before = merged.deep_view();
        sorted_insert(&mut merged, current[i].clone());
        proof {
            assert forall|y: Seq<char>| #[trigger]
                merged.deep_view().contains(y) <==> (exists|k: int| 0 <= k < i + 1 && cd[k] == y) by {
                if merged.deep_view().contains(y) {
                    if before.contains(y) {
                        let k = choose|k: int| 0 <= k < i && cd[k] == y;
                        assert(0 <= k < i + 1 && cd[k] == y);
                    } else {
                        assert(cd[i as int] == y);
                    }
                }
                if exists|k: int| 0 <= k < i + 1 && cd[k] == y {
                    let k = choose|k: int| 0 <= k < i + 1 && cd[k] == y;
                    if k < i {
                        assert(before.contains(y));
                    }
                }
            }
        }
        i = i + 1;
    }
    let mut changed = false;
    let mut j: usize = 0;
    while j < additions.len()
        invariant
            cd == current.deep_view(),
            ad == additions.deep_view(),
            ad.len() == additions@.len(),
            0 <= j <= additions@.len(),
            strictly_sorted(merged.deep_view()),
            forall|y: Seq<char>| #[trigger]
                merged.deep_view().contains(y) <==> (cd.contains(y) || (exists|k: int|
                    0 <= k < j && ad[k] == y)),
            changed == exists|k: int| 0 <= k < j && !cd.contains(#[trigger] ad[k]),
        decreases additions@.len() - j,
    {
        let ghost before = merged.deep_view();
        proof {
            assert(ad[j as int] == additions@[j as int]@);
        }
        if !contains_str(current, additions[j].as_str()) {
            changed = true;
        }
        sorted_insert(&mut merged, additions[j].clone());
        proof {
            assert forall|y: Seq<char>| #[trigger]
                merged.deep_view().contains(y) <==> (cd.contains(y) || (exists|k: int|
                    0 <= k < j + 1 && ad[k] == y)) by {
                if merged.deep_view().contains(y) && !before.contains(y) {
                    assert(ad[j as int] == y);
                }
                if exists|k: int| 0 <= k < j + 1 && ad[k] == y {
                    let k = choose|k: int| 0 <= k < j + 1 && ad[k] == y;
                    if k < j {
                        assert(before.contains(y));
                    }
                }
            }
        }
        j = j + 1;
    }
    proof {
        assert forall|y: Seq<char>| #[trigger]
            merged.deep_view().contains(y) <==> (cd.contains(y) || ad.contains(y)) by {}
        assert(merged_union(merged.deep_view(), cd, ad));
        assert(changed == any_new(ad, cd));
    }
    (merged, changed)
}

/// Merging the same additions again changes nothing: each addition already
/// lies in the merged union, so a second merge reports no change.
pub proof fn lemma_remerge_unchanged(
    merged: Seq<Seq<char>>,
    current: Seq<Seq<char>>,
    additions: Seq<Seq<char>>,
)
    requires
        merged_union(merged, current, additions),
    ensures
        !any_new(additions, merged),
{
    assert forall|k: int| 0 <= k < additions.len() implies merged.contains(additions[k]) by {
        assert(additions.contains(additions[k]));
    }
}

/// One pass over one cluster. Tag-gating: a cluster missing either of the
/// two tags is left entirely alone, like any other resource. With both tags
/// present, the resolved prefixes of the sources tag are merged into the
/// public-access list, and the new list is returned exactly when the merge
/// changed it.
pub fn reconcile_cluster(
    reg: &Registry,
    tags: &Vec<(String, String)>,
    sources_key: &str,
    ports_key: &str,
    current: &Vec<String>,
) -> (r: Option<Vec<String>>)
    ensures
        last_tag_value(tags.deep_view(), ports_key@) is None ==> r is None,
        match last_tag_value(tags.deep_view(), sources_key@) {
            None => r is None,
            Some(v) => last_tag_value(tags.deep_view(), ports_key@) is Some ==> match r {
                Some(m) => strictly_sorted(m.deep_view()) && merged_union(
                    m.deep_view(),
                    current.deep_view(),
                    resolve_tokens(reg@, split_chars(v, ':')),
                ) && any_new(resolve_tokens(reg@, split_chars(v, ':')), current.deep_view()),
                None => !any_new(resolve_tokens(reg@, split_chars(v, ':')), current.deep_view()),
            },
        },
{
    if find_tag_value(tags, ports_key).is_none() {
        return None;
    }
    match find_tag_value(tags, sources_key) {
        None => None,
        Some(v) => {
            let adds = resolve_sources(reg, v.as_str());
            let mc = merge_cidr_list(current, &adds);
            proof {
                assert(adds.deep_view() == resolve_tokens(reg@, split_chars(v@, ':')));
            }
            if mc.1 {
                Some(mc.0)
            } else {
                None
            }
        },
    }
}

} // verus!
