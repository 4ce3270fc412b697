//! The CIDR registry: an immutable mapping from group name to the network
//! prefixes declared for it, built once from the repeated `name=prefix`
//! directives and read by every reconciliation pass.

use vstd::prelude::*;

use crate::text::{split_chars, split_str, str_eq};

verus! {

/// The mapping that a sequence of `name=prefix` directives denotes: prefixes
/// declared under the same name accumulate, in declaration order.
pub open spec fn group_pairs(ps: Seq<(Seq<char>, Seq<char>)>) -> Map<Seq<char>, Seq<Seq<char>>>
    decreases ps.len(),
{
    if ps.len() == 0 {
        Map::empty()
    } else {
        let m = group_pairs(ps.drop_last());
        let k = ps.last().0;
        let v = ps.last().1;
        m.insert(
            k,
            if m.contains_key(k) {
                m[k].push(v)
            } else {
                seq![v]
            },
        )
    }
}

/// The prefixes declared for `k`, in declaration order.
pub open spec fn collected(ps: Seq<(Seq<char>, Seq<char>)>, k: Seq<char>) -> Seq<Seq<char>>
    decreases ps.len(),
{
    if ps.len() == 0 {
        Seq::empty()
    } else {
        let rest = collected(ps.drop_last(), k);
        if ps.last().0 == k {
            rest.push(ps.last().1)
        } else {
            rest
        }
    }
}

/// A name is in the grouped mapping exactly when some directive declares it,
/// and its entry is the collected declaration-order prefixes.
pub proof fn lemma_group_pairs_collected(ps: Seq<(Seq<char>, Seq<char>)>, k: Seq<char>)
    ensures
        group_pairs(ps).contains_key(k) == (collected(ps, k).len() > 0),
        group_pairs(ps).contains_key(k) ==> group_pairs(ps)[k] == collected(ps, k),
    decreases ps.len(),
{
    if ps.len() > 0 {
        lemma_group_pairs_collected(ps.drop_last(), k);
        let m = group_pairs(ps.drop_last());
        if ps.last().0 == k && !m.contains_key(k) {
            assert(seq![ps.last().1] =~= collected(ps.drop_last(), k).push(ps.last().1));
        }
    }
}

/// The immutable group-name-to-prefixes table. It holds the `name=prefix`
/// directives as given; its view is the grouped mapping.
#[derive(Debug, Clone)]
pub struct Registry {
    directives: Vec<(String, String)>,
}

impl View for Registry {
    type V = Map<Seq<char>, Seq<Seq<char>>>;

    closed spec fn view(&self) -> Map<Seq<char>, Seq<Seq<char>>> {
        group_pairs(self.directives.deep_view())
    }
}

impl Registry {
    /// Builds the registry from `name=prefix` directives, in order.
    pub fn new(directives: Vec<(String, String)>) -> (r: Registry)
        ensures
            r@ == group_pairs(directives.deep_view()),
    {
        Registry { directives }
    }

    /// The prefixes declared for `name`, or `None` if no directive names it.
    pub fn get(&self, name: &str) -> (r: Option<Vec<String>>)
        ensures
            match r {
                Some(v) => self@.contains_key(name@) && v.deep_view() == self@[name@],
                None => !self@.contains_key(name@),
            },
    {
        let ghost ps = self.directives.deep_view();
        let mut acc: Vec<String> = Vec::new();
        let mut i: usize = 0;
        proof {
            assert(acc.deep_view() =~= collected(ps.take(0), name@));
        }
        while i < self.directives.len()
            invariant
                ps == self.directives.deep_view(),
                0 <= i <= self.directives.len(),
                acc.deep_view() == collected(ps.take(i as int), name@),
            decreases self.directives.len() - i,
        {
            proof {
                assert(ps.take(i + 1).drop_last() =~= ps.take(i as int));
                assert(ps.take(i + 1).last() == ps[i as int]);
            }
            if str_eq(self.directives[i].0.as_str(), name) {
                let ghost old_acc = acc.deep_view();
                acc.push(self.directives[i].1.clone());
                proof {
                    assert(acc.deep_view() =~= old_acc.push(ps[i as int].1));
                }
            }
            i = i + 1;
        }
        proof {
            assert(ps.take(self.directives.len() as int) =~= ps);
            lemma_group_pairs_collected(ps, name@);
        }
        if acc.len() == 0 {
            None
        } else {
            Some(acc)
        }
    }
}

/// The prefixes the named groups resolve to, group after group in token
/// order; a name no group bears contributes nothing.
pub open spec fn resolve_tokens(reg: Map<Seq<char>, Seq<Seq<char>>>, toks: Seq<Seq<char>>) -> Seq<
    Seq<char>,
>
    decreases toks.len(),
{
    if toks.len() == 0 {
        Seq::empty()
    } else {
        resolve_tokens(reg, toks.drop_last()) + (if reg.contains_key(toks.last()) {
            reg[toks.last()]
        } else {
            Seq::empty()
        })
    }
}

/// A sources token naming no group contributes no prefixes and causes no
/// error: resolving with it is resolving without it.
pub proof fn lemma_unknown_group(
    reg: Map<Seq<char>, Seq<Seq<char>>>,
    toks: Seq<Seq<char>>,
    t: Seq<char>,
)
    requires
        !reg.contains_key(t),
    ensures
        resolve_tokens(reg, toks.push(t)) == resolve_tokens(reg, toks),
{
    assert(toks.push(t).drop_last() =~= toks);
    assert(toks.push(t).last() == t);
    assert(resolve_tokens(reg, toks) + Seq::<Seq<char>>::empty() =~= resolve_tokens(reg, toks));
}

/// Resolves a sources tag value: splits it on `:` and flattens the
/// registry's prefixes for each named group, unknown names dropped.
pub fn resolve_sources(reg: &Registry, value: &str) -> (r: Vec<String>)
    ensures
        r.deep_view() == resolve_tokens(reg@, split_chars(value@, ':')),
{
    let toks = split_str(value, ':');
    let mut r: Vec<String> = Vec::new();
    let mut i: usize = 0;
    proof {
        assert(r.deep_view() =~= resolve_tokens(reg@, toks.deep_view().take(0)));
    }
    while i < toks.len()
        invariant
            toks.deep_view() == split_chars(value@, ':'),
            toks.deep_view().len() == toks@.len(),
            0 <= i <= toks@.len(),
            r.deep_view() == resolve_tokens(reg@, toks.deep_view().take(i as int)),
        decreases toks@.len() - i,
    {
        proof {
            assert(toks.deep_view().take(i + 1).drop_last() =~= toks.deep_view().take(i as int));
            assert(toks.deep_view().take(i + 1).last() == toks.deep_view()[i as int]);
            assert(toks.deep_view()[i as int] == toks@[i as int]@);
        }
        match reg.get(toks[i].as_str()) {
            Some(mut v) => {
                let ghost old_r = r.deep_view();
                let ghost vd = v.deep_view();
                r.append(&mut v);
                proof {
                    assert(r.deep_view() =~= old_r + vd);
                }
            },
            None => {
                proof {
                    assert(r.deep_view() + Seq::<Seq<char>>::empty() =~= r.deep_view());
                }
            },
        }
        i = i + 1;
    }
    proof {
        assert(toks.deep_view().take(toks@.len() as int) =~= toks.deep_view());
    }
    r
}

} // verus!
