//! Security-group ingress reconciliation: current state from the provider's
//! permission list, desired state from the two tags, and the additive diff,
//! grouped by port and protocol so each group is one patch call.

use vstd::prelude::*;

use crate::ports::{InvalidPortError, parse_port_protocols, parse_port_protocols_spec};
use crate::registry::{Registry, resolve_sources, resolve_tokens};
use crate::tags::last_tag_value;
use crate::text::{split_chars, str_eq};

verus! {

/// One granted or wanted unit of ingress: a source prefix may reach a port
/// over a protocol.
pub struct Triple {
    pub cidr: String,
    pub port: i32,
    pub protocol: String,
}

impl View for Triple {
    type V = (Seq<char>, i32, Seq<char>);

    open spec fn view(&self) -> (Seq<char>, i32, Seq<char>) {
        (self.cidr@, self.port, self.protocol@)
    }
}

impl DeepView for Triple {
    type V = (Seq<char>, i32, Seq<char>);

    open spec fn deep_view(&self) -> (Seq<char>, i32, Seq<char>) {
        self@
    }
}

/// One permission entry as the provider reports it: its source prefixes,
/// its first port, absent when the entry names no port, and its protocol.
pub struct Permission {
    pub ip_ranges: Vec<String>,
    pub from_port: Option<i32>,
    pub ip_protocol: String,
}

/// The port a permission entry grants; an entry without one covers all
/// ports, written as the sentinel `-1`, which no real port equals.
pub open spec fn granted_port(p: Option<i32>) -> i32 {
    match p {
        Some(x) => x,
        None => -1i32,
    }
}

impl Permission {
    /// The triples one permission entry grants: one per source prefix.
    pub open spec fn triples(&self) -> Seq<(Seq<char>, i32, Seq<char>)> {
        Seq::new(
            self.ip_ranges.deep_view().len(),
            |i: int| (self.ip_ranges.deep_view()[i], granted_port(self.from_port), self.ip_protocol@),
        )
    }
}

/// All triples a permission list grants, entry after entry.
pub open spec fn current_triples_spec(perms: Seq<Permission>) -> Seq<(Seq<char>, i32, Seq<char>)>
    decreases perms.len(),
{
    if perms.len() == 0 {
        Seq::empty()
    } else {
        current_triples_spec(perms.drop_last()) + perms.last().triples()
    }
}

/// Extracts the current state: the set of (prefix, port, protocol) triples
/// the permission list grants. The result holds each granted triple once:
/// no duplicates, even where the provider repeats a range.
pub fn current_triples(perms: &Vec<Permission>) -> (r: Vec<Triple>)
    ensures
        r.deep_view().no_duplicates(),
        forall|t: (Seq<char>, i32, Seq<char>)| #[trigger]
            r.deep_view().contains(t) <==> current_triples_spec(perms@).contains(t),
{
    let mut r: Vec<Triple> = Vec::new();
    let mut i: usize = 0;
    while i < perms.len()
        invariant
            0 <= i <= perms@.len(),
            r.deep_view().no_duplicates(),
            forall|t: (Seq<char>, i32, Seq<char>)| #[trigger]
                r.deep_view().contains(t) <==> current_triples_spec(perms@.take(i as int)).contains(
                    t,
                ),
        decreases perms@.len() - i,
    {
        let p = &perms[i];
        let port = match p.from_port {
            Some(x) => x,
            None => -1,
        };
        let mut j: usize = 0;
        proof {
            assert(current_triples_spec(perms@.take(i as int)) + p.triples().take(0)
                =~= current_triples_spec(perms@.take(i as int)));
        }
        while j < p.ip_ranges.len()
            invariant
                0 <= i < perms@.len(),
                0 <= j <= p.ip_ranges@.len(),
                p == perms@[i as int],
                port == granted_port(p.from_port),
                r.deep_view().no_duplicates(),
                forall|t: (Seq<char>, i32, Seq<char>)| #[trigger]
                    r.deep_view().contains(t) <==> (current_triples_spec(perms@.take(i as int))
                        + p.triples().take(j as int)).contains(t),
            decreases p.ip_ranges@.len() - j,
        {
            let ghost tj = p.triples()[j as int];
            let ghost pre = current_triples_spec(perms@.take(i as int)) + p.triples().take(j as int);
            let ghost post = current_triples_spec(perms@.take(i as int)) + p.triples().take(j + 1);
            proof {
                assert(tj == (p.ip_ranges.deep_view()[j as int], port, p.ip_protocol@));
                assert(post =~= pre.push(tj));
                assert forall|t: (Seq<char>, i32, Seq<char>)| #[trigger]
                    post.contains(t) <==> (pre.contains(t) || t == tj) by {
                    if post.contains(t) {
                        let k = choose|k: int| 0 <= k < post.len() && post[k] == t;
                        if k < pre.len() {
                            assert(pre[k] == t);
                        }
                    }
                    if pre.contains(t) {
                        let k = choose|k: int| 0 <= k < pre.len() && pre[k] == t;
                        assert(post[k] == t);
                    }
                    if t == tj {
                        assert(post[pre.len() as int] == t);
                    }
                }
            }
            if !contains_triple(&r, p.ip_ranges[j].as_str(), port, p.ip_protocol.as_str()) {
                let ghost old_r = r.deep_view();
                r.push(
                    Triple {
                        cidr: p.ip_ranges[j].clone(),
                        port,
                        protocol: p.ip_protocol.clone(),
                    },
                );
                proof {
                    let nr = r.deep_view();
                    assert(nr =~= old_r.push(tj));
                    assert forall|a: int, b: int|
                        0 <= a < nr.len() && 0 <= b < nr.len() && a != b implies nr[a] != nr[b] by {
                        if a < old_r.len() && b < old_r.len() {
                            assert(old_r[a] == nr[a] && old_r[b] == nr[b]);
                        } else if b == old_r.len() && nr[a] == nr[b] {
                            assert(old_r[a] == tj);
                            assert(old_r.contains(tj));
                        } else if a == old_r.len() && nr[a] == nr[b] {
                            assert(old_r[b] == tj);
                            assert(old_r.contains(tj));
                        }
                    }
                    assert forall|t: (Seq<char>, i32, Seq<char>)| #[trigger]
                        nr.contains(t) <==> post.contains(t) by {
                        if nr.contains(t) {
                            let k = choose|k: int| 0 <= k < nr.len() && nr[k] == t;
                            if k < old_r.len() {
                                assert(old_r[k] == t);
                                assert(old_r.contains(t));
                            }
                        }
                        if old_r.contains(t) {
                            let k = choose|k: int| 0 <= k < old_r.len() && old_r[k] == t;
                            assert(nr[k] == t);
                        }
                        if t == tj {
                            assert(nr[old_r.len() as int] == t);
                        }
                    }
                }
            } else {
                proof {
                    assert forall|t: (Seq<char>, i32, Seq<char>)| #[trigger]
                        r.deep_view().contains(t) <==> post.contains(t) by {}
                }
            }
            j = j + 1;
        }
        proof {
            assert(p.triples().take(p.ip_ranges@.len() as int) =~= p.triples());
            assert(perms@.take(i + 1).drop_last() =~= perms@.take(i as int));
            assert(perms@.take(i + 1).last() == perms@[i as int]);
            assert(current_triples_spec(perms@.take(i + 1)) =~= current_triples_spec(
                perms@.take(i as int),
            ) + p.triples());
        }
        i = i + 1;
    }
    proof {
        assert(perms@.take(perms@.len() as int) =~= perms@);
    }
    r
}

/// Whether the current state already grants this exact triple; protocol
/// comparison is case-sensitive and exact.
pub fn contains_triple(cur: &Vec<Triple>, cidr: &str, port: i32, protocol: &str) -> (r: bool)
    ensures
        r == cur.deep_view().contains((cidr@, port, protocol@)),
{
    let mut i: usize = 0;
    while i < cur.len()
        invariant
            0 <= i <= cur@.len(),
            forall|j: int| 0 <= j < i ==> cur.deep_view()[j] != (cidr@, port, protocol@),
        decreases cur@.len() - i,
    {
        let t = &cur[i];
        if t.port == port && str_eq(t.cidr.as_str(), cidr) && str_eq(t.protocol.as_str(), protocol) {
            proof {
                assert(cur.deep_view()[i as int] == (cidr@, port, protocol@));
            }
            return true;
        }
        i = i + 1;
    }
    proof {
        if cur.deep_view().contains((cidr@, port, protocol@)) {
            let k = choose|k: int|
                0 <= k < cur.deep_view().len() && cur.deep_view()[k] == (cidr@, port, protocol@);
            assert(cur.deep_view()[k] == (cidr@, port, protocol@));
        }
    }
    false
}

/// Of `sources`, those prefixes not already granted for (`port`,
/// `protocol`), in order.
pub open spec fn missing_for(
    sources: Seq<Seq<char>>,
    port: i32,
    protocol: Seq<char>,
    cur: Seq<(Seq<char>, i32, Seq<char>)>,
) -> Seq<Seq<char>>
    decreases sources.len(),
{
    if sources.len() == 0 {
        Seq::empty()
    } else {
        let rest = missing_for(sources.drop_last(), port, protocol, cur);
        if !cur.contains((sources.last(), port, protocol)) {
            rest.push(sources.last())
        } else {
            rest
        }
    }
}

/// One patch instruction: authorize `cidrs` to reach `port` over
/// `protocol`, in a single provider call.
pub struct PatchRule {
    pub port: i32,
    pub protocol: String,
    pub cidrs: Vec<String>,
}

impl DeepView for PatchRule {
    type V = (i32, Seq<char>, Seq<Seq<char>>);

    open spec fn deep_view(&self) -> (i32, Seq<char>, Seq<Seq<char>>) {
        (self.port, self.protocol@, self.cidrs.deep_view())
    }
}

/// The planned patches: for each desired (port, protocol) in tag order, the
/// missing prefixes, skipping groups where nothing is missing.
pub open spec fn sg_patches_spec(
    sources: Seq<Seq<char>>,
    ports: Seq<(i32, Seq<char>)>,
    cur: Seq<(Seq<char>, i32, Seq<char>)>,
) -> Seq<(i32, Seq<char>, Seq<Seq<char>>)>
    decreases ports.len(),
{
    if ports.len() == 0 {
        Seq::empty()
    } else {
        let rest = sg_patches_spec(sources, ports.drop_last(), cur);
        let m = missing_for(sources, ports.last().0, ports.last().1, cur);
        if m.len() > 0 {
            rest.push((ports.last().0, ports.last().1, m))
        } else {
            rest
        }
    }
}

/// Computes the additive diff: one patch per desired (port, protocol) that
/// still misses some prefix, covering exactly the missing ones.
pub fn plan_sg_patches(sources: &Vec<String>, ports: &Vec<(i32, String)>, cur: &Vec<Triple>) -> (r:
    Vec<PatchRule>)
    ensures
        r.deep_view() == sg_patches_spec(sources.deep_view(), ports.deep_view(), cur.deep_view()),
{
    let mut r: Vec<PatchRule> = Vec::new();
    let mut i: usize = 0;
    proof {
        assert(r.deep_view() =~= sg_patches_spec(
            sources.deep_view(),
            ports.deep_view().take(0),
            cur.deep_view(),
        ));
    }
    while i < ports.len()
        invariant
            0 <= i <= ports@.len(),
            r.deep_view() == sg_patches_spec(
                sources.deep_view(),
                ports.deep_view().take(i as int),
                cur.deep_view(),
            ),
        decreases ports@.len() - i,
    {
        let port: i32 = ports[i].0;
        let mut m: Vec<String> = Vec::new();
        let mut j: usize = 0;
        proof {
            assert(m.deep_view() =~= missing_for(
                sources.deep_view().take(0),
                port,
                ports.deep_view()[i as int].1,
                cur.deep_view(),
            ));
        }
        while j < sources.len()
            invariant
                0 <= i < ports@.len(),
                0 <= j <= sources@.len(),
                port == ports.deep_view()[i as int].0,
                m.deep_view() == missing_for(
                    sources.deep_view().take(j as int),
                    port,
                    ports.deep_view()[i as int].1,
                    cur.deep_view(),
                ),
            decreases sources@.len() - j,
        {
            proof {
                assert(sources.deep_view().take(j + 1).drop_last() =~= sources.deep_view().take(
                    j as int,
                ));
                assert(sources.deep_view().take(j + 1).last() == sources.deep_view()[j as int]);
            }
            if !contains_triple(cur, sources[j].as_str(), port, ports[i].1.as_str()) {
                let ghost old_m = m.deep_view();
                m.push(sources[j].clone());
                proof {
                    assert(m.deep_view() =~= old_m.push(sources.deep_view()[j as int]));
                }
            }
            j = j + 1;
        }
        proof {
            assert(sources.deep_view().take(sources@.len() as int) =~= sources.deep_view());
            assert(ports.deep_view().take(i + 1).drop_last() =~= ports.deep_view().take(i as int));
            assert(ports.deep_view().take(i + 1).last() == ports.deep_view()[i as int]);
        }
        if m.len() > 0 {
            let ghost old_r = r.deep_view();
            let ghost mv = m.deep_view();
            r.push(PatchRule { port, protocol: ports[i].1.clone(), cidrs: m });
            proof {
                assert(r.deep_view() =~= old_r.push(
                    (ports.deep_view()[i as int].0, ports.deep_view()[i as int].1, mv),
                ));
            }
        }
        i = i + 1;
    }
    proof {
        assert(ports.deep_view().take(ports@.len() as int) =~= ports.deep_view());
    }
    r
}

/// The missing set depends on the current state only through which
/// triples it contains.
pub proof fn lemma_missing_for_membership(
    sources: Seq<Seq<char>>,
    port: i32,
    protocol: Seq<char>,
    cur1: Seq<(Seq<char>, i32, Seq<char>)>,
    cur2: Seq<(Seq<char>, i32, Seq<char>)>,
)
    requires
        forall|t: (Seq<char>, i32, Seq<char>)| #[trigger] cur1.contains(t) <==> cur2.contains(t),
    ensures
        missing_for(sources, port, protocol, cur1) == missing_for(sources, port, protocol, cur2),
    decreases sources.len(),
{
    if sources.len() > 0 {
        lemma_missing_for_membership(sources.drop_last(), port, protocol, cur1, cur2);
        assert(cur1.contains((sources.last(), port, protocol)) <==> cur2.contains(
            (sources.last(), port, protocol),
        ));
    }
}

/// So do the planned patches: two current states granting the same triples
/// yield the same plan.
pub proof fn lemma_sg_patches_membership(
    sources: Seq<Seq<char>>,
    ports: Seq<(i32, Seq<char>)>,
    cur1: Seq<(Seq<char>, i32, Seq<char>)>,
    cur2: Seq<(Seq<char>, i32, Seq<char>)>,
)
    requires
        forall|t: (Seq<char>, i32, Seq<char>)| #[trigger] cur1.contains(t) <==> cur2.contains(t),
    ensures
        sg_patches_spec(sources, ports, cur1) == sg_patches_spec(sources, ports, cur2),
    decreases ports.len(),
{
    if ports.len() > 0 {
        lemma_sg_patches_membership(sources, ports.drop_last(), cur1, cur2);
        lemma_missing_for_membership(sources, ports.last().0, ports.last().1, cur1, cur2);
    }
}

/// The desired source prefixes of a tag set: the resolved last sources tag,
/// empty when there is none.
pub open spec fn spec_sources_value(
    reg: Map<Seq<char>, Seq<Seq<char>>>,
    tags: Seq<(Seq<char>, Seq<char>)>,
    sources_key: Seq<char>,
) -> Seq<Seq<char>> {
    match last_tag_value(tags, sources_key) {
        None => Seq::empty(),
        Some(v) => resolve_tokens(reg, split_chars(v, ':')),
    }
}

/// The desired ports of a tag set: the parsed last ports tag, empty when
/// there is none; `None` when any ports tag fails to parse, where the scan
/// stops.
pub open spec fn spec_ports_value(tags: Seq<(Seq<char>, Seq<char>)>, ports_key: Seq<char>) -> Option<
    Seq<(i32, Seq<char>)>,
>
    decreases tags.len(),
{
    if tags.len() == 0 {
        Some(Seq::empty())
    } else {
        match spec_ports_value(tags.drop_last(), ports_key) {
            None => None,
            Some(cur) => if tags.last().0 == ports_key {
                parse_port_protocols_spec(tags.last().1)
            } else {
                Some(cur)
            },
        }
    }
}

/// Once a ports tag has failed to parse, adding later tags cannot repair it.
pub proof fn lemma_ports_value_fail_prefix(
    tags: Seq<(Seq<char>, Seq<char>)>,
    ports_key: Seq<char>,
    i: int,
)
    requires
        0 <= i <= tags.len(),
        spec_ports_value(tags.take(i), ports_key) is None,
    ensures
        spec_ports_value(tags, ports_key) is None,
    decreases tags.len() - i,
{
    if i < tags.len() {
        assert(tags.take(i + 1).drop_last() =~= tags.take(i));
        lemma_ports_value_fail_prefix(tags, ports_key, i + 1);
    } else {
        assert(tags.take(i) =~= tags);
    }
}

/// Everything one pass decides for one security group: `None` when the
/// ports tag is unparsable, otherwise the planned patches.
pub open spec fn sg_plan_spec(
    reg: Map<Seq<char>, Seq<Seq<char>>>,
    tags: Seq<(Seq<char>, Seq<char>)>,
    sources_key: Seq<char>,
    ports_key: Seq<char>,
    perms: Seq<Permission>,
) -> Option<Seq<(i32, Seq<char>, Seq<Seq<char>>)>> {
    match spec_ports_value(tags, ports_key) {
        None => None,
        Some(pps) => Some(
            sg_patches_spec(
                spec_sources_value(reg, tags, sources_key),
                pps,
                current_triples_spec(perms),
            ),
        ),
    }
}

/// Reconciles one security group: reads the two tags, resolves and parses
/// them, and plans one additive patch per (port, protocol) group that still
/// misses a prefix. Fails exactly when a ports tag does not parse.
pub fn reconcile_security_group(
    reg: &Registry,
    tags: &Vec<(String, String)>,
    sources_key: &str,
    ports_key: &str,
    perms: &Vec<Permission>,
) -> (r: Result<Vec<PatchRule>, InvalidPortError>)
    requires
        sources_key@ != ports_key@,
    ensures
        match r {
            Ok(p) => sg_plan_spec(reg@, tags.deep_view(), sources_key@, ports_key@, perms@)
                == Some(p.deep_view()),
            Err(e) => sg_plan_spec(reg@, tags.deep_view(), sources_key@, ports_key@, perms@)
                is None,
        },
{
    let ghost ts = tags.deep_view();
    let mut sources: Vec<String> = Vec::new();
    let mut pps: Vec<(i32, String)> = Vec::new();
    let mut i: usize = 0;
    proof {
        assert(sources.deep_view() =~= Seq::<Seq<char>>::empty());
        assert(pps.deep_view() =~= Seq::<(i32, Seq<char>)>::empty());
    }
    while i < tags.len()
        invariant
            ts == tags.deep_view(),
            ts.len() == tags@.len(),
            0 <= i <= tags@.len(),
            sources_key@ != ports_key@,
            sources.deep_view() == spec_sources_value(reg@, ts.take(i as int), sources_key@),
            spec_ports_value(ts.take(i as int), ports_key@) == Some(pps.deep_view()),
        decreases tags@.len() - i,
    {
        proof {
            assert(ts.take(i + 1).drop_last() =~= ts.take(i as int));
            assert(ts.take(i + 1).last() == ts[i as int]);
            assert(ts[i as int] == (tags@[i as int].0@, tags@[i as int].1@));
        }
        if str_eq(tags[i].0.as_str(), sources_key) {
            sources = resolve_sources(reg, tags[i].1.as_str());
        } else if str_eq(tags[i].0.as_str(), ports_key) {
            match parse_port_protocols(tags[i].1.as_str()) {
                Ok(v) => {
                    pps = v;
                },
                Err(e) => {
                    proof {
                        lemma_ports_value_fail_prefix(ts, ports_key@, i + 1);
                    }
                    return Err(e);
                },
            }
        }
        i = i + 1;
    }
    proof {
        assert(ts.take(tags@.len() as int) =~= ts);
    }
    let cur = current_triples(perms);
    let plan = plan_sg_patches(&sources, &pps, &cur);
    proof {
        lemma_sg_patches_membership(
            sources.deep_view(),
            pps.deep_view(),
            cur.deep_view(),
            current_triples_spec(perms@),
        );
    }
    Ok(plan)
}

/// Whether the plan grants triple `t` through some patch.
pub open spec fn plan_grants(
    plan: Seq<(i32, Seq<char>, Seq<Seq<char>>)>,
    t: (Seq<char>, i32, Seq<char>),
) -> bool {
    exists|pi: int|
        0 <= pi < plan.len() && plan[pi].0 == t.1 && plan[pi].1 == t.2 && plan[pi].2.contains(t.0)
}

/// What the missing set holds: exactly the desired prefixes that the
/// current state does not yet grant at this port and protocol.
pub proof fn lemma_missing_for_props(
    sources: Seq<Seq<char>>,
    port: i32,
    protocol: Seq<char>,
    cur: Seq<(Seq<char>, i32, Seq<char>)>,
)
    ensures
        forall|x: Seq<char>| #[trigger]
            missing_for(sources, port, protocol, cur).contains(x) ==> sources.contains(x)
                && !cur.contains((x, port, protocol)),
        forall|k: int|
            0 <= k < sources.len() && !cur.contains((#[trigger] sources[k], port, protocol))
                ==> missing_for(sources, port, protocol, cur).contains(sources[k]),
    decreases sources.len(),
{
    if sources.len() > 0 {
        lemma_missing_for_props(sources.drop_last(), port, protocol, cur);
        let m = missing_for(sources, port, protocol, cur);
        let mr = missing_for(sources.drop_last(), port, protocol, cur);
        assert forall|x: Seq<char>| #[trigger] m.contains(x) implies sources.contains(x)
            && !cur.contains((x, port, protocol)) by {
            let idx = choose|idx: int| 0 <= idx < m.len() && m[idx] == x;
            if idx < mr.len() {
                assert(mr[idx] == x);
                assert(mr.contains(x));
                let k = choose|k: int|
                    0 <= k < sources.drop_last().len() && sources.drop_last()[k] == x;
                assert(sources[k] == x);
            } else {
                assert(x == sources.last());
                assert(sources[sources.len() - 1] == x);
            }
        }
        assert forall|k: int|
            0 <= k < sources.len() && !cur.contains((#[trigger] sources[k], port, protocol))
            implies m.contains(sources[k]) by {
            if k < sources.len() - 1 {
                assert(sources.drop_last()[k] == sources[k]);
                assert(mr.contains(sources[k]));
                let idx = choose|idx: int| 0 <= idx < mr.len() && mr[idx] == sources[k];
                assert(m[idx] == sources[k]);
            } else {
                assert(m[m.len() - 1] == sources.last());
            }
        }
    }
}

/// Additivity: a patch grants only desired prefixes that were missing, so
/// nothing existing is ever touched or removed, and together with the
/// current state the patches cover every desired triple.
pub proof fn lemma_sg_plan_additive(
    sources: Seq<Seq<char>>,
    ports: Seq<(i32, Seq<char>)>,
    cur: Seq<(Seq<char>, i32, Seq<char>)>,
)
    ensures
        forall|t: (Seq<char>, i32, Seq<char>)| #[trigger]
            plan_grants(sg_patches_spec(sources, ports, cur), t) ==> sources.contains(t.0)
                && ports.contains((t.1, t.2)) && !cur.contains(t),
        forall|si: int, qi: int|
            #![trigger sources[si], ports[qi]]
            0 <= si < sources.len() && 0 <= qi < ports.len() ==> cur.contains(
                (sources[si], ports[qi].0, ports[qi].1),
            ) || plan_grants(
                sg_patches_spec(sources, ports, cur),
                (sources[si], ports[qi].0, ports[qi].1),
            ),
    decreases ports.len(),
{
    if ports.len() > 0 {
        lemma_sg_plan_additive(sources, ports.drop_last(), cur);
        lemma_missing_for_props(sources, ports.last().0, ports.last().1, cur);
        let plan = sg_patches_spec(sources, ports, cur);
        let prev = sg_patches_spec(sources, ports.drop_last(), cur);
        let m = missing_for(sources, ports.last().0, ports.last().1, cur);
        assert forall|t: (Seq<char>, i32, Seq<char>)| #[trigger] plan_grants(plan, t) implies
            sources.contains(t.0) && ports.contains((t.1, t.2)) && !cur.contains(t) by {
            let pi = choose|pi: int|
                0 <= pi < plan.len() && plan[pi].0 == t.1 && plan[pi].1 == t.2
                    && plan[pi].2.contains(t.0);
            if m.len() > 0 && pi == prev.len() {
                assert(plan[pi] == (ports.last().0, ports.last().1, m));
                assert(m.contains(t.0));
                assert(ports[ports.len() - 1] == (t.1, t.2));
            } else {
                assert(plan[pi] == prev[pi]);
                assert(plan_grants(prev, t));
                let di = choose|di: int|
                    0 <= di < ports.drop_last().len() && ports.drop_last()[di] == (t.1, t.2);
                assert(ports[di] == (t.1, t.2));
            }
        }
        assert forall|si: int, qi: int|
            #![trigger sources[si], ports[qi]]
            0 <= si < sources.len() && 0 <= qi < ports.len() implies cur.contains(
            (sources[si], ports[qi].0, ports[qi].1),
        ) || plan_grants(plan, (sources[si], ports[qi].0, ports[qi].1)) by {
            let t = (sources[si], ports[qi].0, ports[qi].1);
            if qi == ports.len() - 1 {
                if !cur.contains(t) {
                    assert(ports[qi] == ports.last());
                    assert(m.contains(sources[si]));
                    assert(plan[prev.len() as int] == (ports.last().0, ports.last().1, m));
                    assert(plan_grants(plan, t));
                }
            } else {
                assert(ports.drop_last()[qi] == ports[qi]);
                if !cur.contains(t) {
                    assert(plan_grants(prev, t));
                    let pi = choose|pi: int|
                        0 <= pi < prev.len() && prev[pi].0 == t.1 && prev[pi].1 == t.2
                            && prev[pi].2.contains(t.0);
                    assert(plan[pi] == prev[pi]);
                    assert(plan_grants(plan, t));
                }
            }
        }
    }
}

/// Idempotence: once the current rules include both the old rules and
/// everything the plan granted, a second pass plans nothing.
pub proof fn lemma_sg_plan_idempotent(
    sources: Seq<Seq<char>>,
    ports: Seq<(i32, Seq<char>)>,
    cur: Seq<(Seq<char>, i32, Seq<char>)>,
    cur2: Seq<(Seq<char>, i32, Seq<char>)>,
)
    requires
        forall|t: (Seq<char>, i32, Seq<char>)| #[trigger] cur.contains(t) ==> cur2.contains(t),
        forall|t: (Seq<char>, i32, Seq<char>)| #[trigger]
            plan_grants(sg_patches_spec(sources, ports, cur), t) ==> cur2.contains(t),
    ensures
        sg_patches_spec(sources, ports, cur2) == Seq::<(i32, Seq<char>, Seq<Seq<char>>)>::empty(),
    decreases ports.len(),
{
    if ports.len() > 0 {
        let plan = sg_patches_spec(sources, ports, cur);
        let prev = sg_patches_spec(sources, ports.drop_last(), cur);
        let m = missing_for(sources, ports.last().0, ports.last().1, cur);
        assert forall|t: (Seq<char>, i32, Seq<char>)| #[trigger] plan_grants(prev, t) implies
            cur2.contains(t) by {
            let pi = choose|pi: int|
                0 <= pi < prev.len() && prev[pi].0 == t.1 && prev[pi].1 == t.2
                    && prev[pi].2.contains(t.0);
            assert(plan[pi] == prev[pi]);
            assert(plan_grants(plan, t));
        }
        lemma_sg_plan_idempotent(sources, ports.drop_last(), cur, cur2);
        let p = ports.last().0;
        let pr = ports.last().1;
        let m2 = missing_for(sources, p, pr, cur2);
        if m2.len() > 0 {
            lemma_missing_for_props(sources, p, pr, cur2);
            lemma_missing_for_props(sources, p, pr, cur);
            assert(m2[m2.len() - 1] == m2.last());
            assert(m2.contains(m2.last()));
            let x = m2.last();
            assert(sources.contains(x) && !cur2.contains((x, p, pr)));
            let si = choose|si: int| 0 <= si < sources.len() && sources[si] == x;
            if cur.contains((x, p, pr)) {
                assert(cur2.contains((x, p, pr)));
            } else {
                assert(m.contains(sources[si]));
                assert(m.len() > 0);
                assert(plan[prev.len() as int] == (p, pr, m));
                assert(plan_grants(plan, (x, p, pr)));
                assert(cur2.contains((x, p, pr)));
            }
            assert(false);
        }
    }
}

/// Idempotence of a whole pass: with the same tags, once the provider
/// reports every rule the first plan granted, on top of what it already
/// had, the second pass plans no patch at all.
pub proof fn lemma_reconcile_idempotent(
    reg: Map<Seq<char>, Seq<Seq<char>>>,
    tags: Seq<(Seq<char>, Seq<char>)>,
    sources_key: Seq<char>,
    ports_key: Seq<char>,
    perms: Seq<Permission>,
    perms2: Seq<Permission>,
)
    requires
        sg_plan_spec(reg, tags, sources_key, ports_key, perms) is Some,
        forall|t: (Seq<char>, i32, Seq<char>)| #[trigger]
            current_triples_spec(perms).contains(t) ==> current_triples_spec(perms2).contains(t),
        forall|t: (Seq<char>, i32, Seq<char>)| #[trigger]
            plan_grants(sg_plan_spec(reg, tags, sources_key, ports_key, perms).unwrap(), t)
                ==> current_triples_spec(perms2).contains(t),
    ensures
        sg_plan_spec(reg, tags, sources_key, ports_key, perms2) == Some(
            Seq::<(i32, Seq<char>, Seq<Seq<char>>)>::empty(),
        ),
{
    let pps = spec_ports_value(tags, ports_key).unwrap();
    let sources = spec_sources_value(reg, tags, sources_key);
    let plan = sg_plan_spec(reg, tags, sources_key, ports_key, perms).unwrap();
    assert(plan == sg_patches_spec(sources, pps, current_triples_spec(perms)));
    assert forall|t: (Seq<char>, i32, Seq<char>)| #[trigger]
        plan_grants(sg_patches_spec(sources, pps, current_triples_spec(perms)), t) implies
        current_triples_spec(perms2).contains(t) by {
        assert(plan_grants(plan, t));
    }
    lemma_sg_plan_idempotent(
        sources,
        pps,
        current_triples_spec(perms),
        current_triples_spec(perms2),
    );
}

/// No ports tag at all parses to no ports.
pub proof fn lemma_ports_value_missing(tags: Seq<(Seq<char>, Seq<char>)>, ports_key: Seq<char>)
    requires
        last_tag_value(tags, ports_key) is None,
    ensures
        spec_ports_value(tags, ports_key) == Some(Seq::<(i32, Seq<char>)>::empty()),
    decreases tags.len(),
{
    if tags.len() > 0 {
        lemma_ports_value_missing(tags.drop_last(), ports_key);
    }
}

/// With no desired sources there is nothing to patch.
pub proof fn lemma_empty_sources_plan(
    ports: Seq<(i32, Seq<char>)>,
    cur: Seq<(Seq<char>, i32, Seq<char>)>,
)
    ensures
        sg_patches_spec(Seq::empty(), ports, cur) == Seq::<(i32, Seq<char>, Seq<Seq<char>>)>::empty(),
    decreases ports.len(),
{
    if ports.len() > 0 {
        lemma_empty_sources_plan(ports.drop_last(), cur);
    }
}

/// Tag-gating: a resource missing either of the two tags yields an empty
/// plan, no matter its current rules. A present but unparsable ports tag is
/// outside this statement: it fails the resource's pass instead.
pub proof fn lemma_tag_gating(
    reg: Map<Seq<char>, Seq<Seq<char>>>,
    tags: Seq<(Seq<char>, Seq<char>)>,
    sources_key: Seq<char>,
    ports_key: Seq<char>,
    perms: Seq<Permission>,
)
    requires
        last_tag_value(tags, sources_key) is None || last_tag_value(tags, ports_key) is None,
        spec_ports_value(tags, ports_key) is Some,
    ensures
        sg_plan_spec(reg, tags, sources_key, ports_key, perms) == Some(
            Seq::<(i32, Seq<char>, Seq<Seq<char>>)>::empty(),
        ),
{
    if last_tag_value(tags, ports_key) is None {
        lemma_ports_value_missing(tags, ports_key);
    } else {
        assert(last_tag_value(tags, sources_key) is None);
        assert(spec_sources_value(reg, tags, sources_key) == Seq::<Seq<char>>::empty());
        lemma_empty_sources_plan(
            spec_ports_value(tags, ports_key).unwrap(),
            current_triples_spec(perms),
        );
    }
}

} // verus!
