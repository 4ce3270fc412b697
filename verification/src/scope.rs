//! Scope fan-out: the configured authentication mode and regions determine
//! one independent reconciliation scope per (credential, region) pair, each
//! run on its own. Discovered accounts turn into synthesized role ARNs.

use vstd::prelude::*;

verus! {

/// How the controller obtains credentials.
#[derive(Debug, Clone)]
pub enum AuthMode {
    /// The default credentials provider chain on the local machine.
    Local,
    /// A provided list of roles to assume.
    Assume(Vec<String>),
    /// Accounts and roles discovered from an organization: an optional root
    /// role for discovery, and the sub-role name assumed in every account.
    Discover(Option<String>, String),
}

/// The mode the three mutually exclusive settings select; `None` for the
/// one combination that is invalid: a root role without a sub-role.
pub open spec fn auth_mode_of(
    assume_roles: Option<Vec<String>>,
    root_role: Option<String>,
    sub_role: Option<String>,
) -> Option<AuthMode> {
    match assume_roles {
        Some(roles) => Some(AuthMode::Assume(roles)),
        None => match sub_role {
            Some(sr) => Some(AuthMode::Discover(root_role, sr)),
            None => match root_role {
                None => Some(AuthMode::Local),
                Some(rr) => None,
            },
        },
    }
}

/// Selects the authentication mode from the parsed settings.
pub fn select_auth_mode(
    assume_roles: Option<Vec<String>>,
    root_role: Option<String>,
    sub_role: Option<String>,
) -> (r: Option<AuthMode>)
    ensures
        r == auth_mode_of(assume_roles, root_role, sub_role),
{
    match assume_roles {
        Some(roles) => Some(AuthMode::Assume(roles)),
        None => match sub_role {
            Some(sr) => Some(AuthMode::Discover(root_role, sr)),
            None => match root_role {
                None => Some(AuthMode::Local),
                Some(_) => None,
            },
        },
    }
}

/// One reconciliation scope: the role to assume, none for the ambient
/// identity, and the region to run in.
pub struct ScopeTask {
    pub role: Option<String>,
    pub region: String,
}

impl DeepView for ScopeTask {
    type V = (Option<Seq<char>>, Seq<char>);

    open spec fn deep_view(&self) -> (Option<Seq<char>>, Seq<char>) {
        (self.role.deep_view(), self.region@)
    }
}

/// The scopes of one credential over every region, in region order.
pub open spec fn role_row(role: Option<Seq<char>>, regions: Seq<Seq<char>>) -> Seq<
    (Option<Seq<char>>, Seq<char>),
> {
    Seq::new(regions.len(), |j: int| (role, regions[j]))
}

/// One scope per credential and region: the cartesian product, role-major.
pub open spec fn cartesian(roles: Seq<Option<Seq<char>>>, regions: Seq<Seq<char>>) -> Seq<
    (Option<Seq<char>>, Seq<char>),
>
    decreases roles.len(),
{
    if roles.len() == 0 {
        Seq::empty()
    } else {
        cartesian(roles.drop_last(), regions) + role_row(roles.last(), regions)
    }
}

/// The fan-out is exact: `|roles| * |regions|` independent scopes come out.
pub proof fn lemma_cartesian_len(roles: Seq<Option<Seq<char>>>, regions: Seq<Seq<char>>)
    ensures
        cartesian(roles, regions).len() == roles.len() * regions.len(),
    decreases roles.len(),
{
    if roles.len() > 0 {
        lemma_cartesian_len(roles.drop_last(), regions);
        assert((roles.len() - 1) * regions.len() + regions.len() == roles.len() * regions.len())
            by (nonlinear_arith);
    }
}

/// Every region as an ambient-credential role, wrapped for `cartesian`.
pub open spec fn as_roles(roles: Seq<Seq<char>>) -> Seq<Option<Seq<char>>> {
    Seq::new(roles.len(), |i: int| Some(roles[i]))
}

/// Plans the scopes for the local mode: the ambient identity in every
/// region.
pub fn plan_local_scopes(regions: &Vec<String>) -> (r: Vec<ScopeTask>)
    ensures
        r.deep_view() == role_row(None, regions.deep_view()),
{
    let ghost rd = regions.deep_view();
    let mut r: Vec<ScopeTask> = Vec::new();
    let mut j: usize = 0;
    while j < regions.len()
        invariant
            rd == regions.deep_view(),
            rd.len() == regions@.len(),
            0 <= j <= regions@.len(),
            r.deep_view() =~= role_row(None, rd).take(j as int),
        decreases regions@.len() - j,
    {
        let ghost old_r = r.deep_view();
        r.push(ScopeTask { role: None, region: regions[j].clone() });
        proof {
            assert(r.deep_view() =~= old_r.push((None, rd[j as int])));
            assert(r.deep_view() =~= role_row(None, rd).take(j + 1));
        }
        j = j + 1;
    }
    proof {
        assert(role_row(None, rd).take(rd.len() as int) =~= role_row(None, rd));
    }
    r
}

/// Plans the scopes for the explicit-roles mode: each role assumed in each
/// region, role-major.
pub fn plan_assume_scopes(roles: &Vec<String>, regions: &Vec<String>) -> (r: Vec<ScopeTask>)
    ensures
        r.deep_view() == cartesian(as_roles(roles.deep_view()), regions.deep_view()),
{
    let ghost rsd = as_roles(roles.deep_view());
    let ghost rd = regions.deep_view();
    let mut r: Vec<ScopeTask> = Vec::new();
    let mut i: usize = 0;
    proof {
        assert(rsd.take(0) =~= Seq::<Option<Seq<char>>>::empty());
        assert(r.deep_view() =~= cartesian(rsd.take(0), rd));
    }
    while i < roles.len()
        invariant
            rsd == as_roles(roles.deep_view()),
            rd == regions.deep_view(),
            rsd.len() == roles@.len(),
            rd.len() == regions@.len(),
            0 <= i <= roles@.len(),
            r.deep_view() == cartesian(rsd.take(i as int), rd),
        decreases roles@.len() - i,
    {
        let mut j: usize = 0;
        proof {
            assert(r.deep_view() =~= cartesian(rsd.take(i as int), rd) + role_row(
                rsd[i as int],
                rd,
            ).take(0));
        }
        while j < regions.len()
            invariant
                rsd == as_roles(roles.deep_view()),
                rd == regions.deep_view(),
                rsd.len() == roles@.len(),
                rd.len() == regions@.len(),
                0 <= i < roles@.len(),
                0 <= j <= regions@.len(),
                r.deep_view() == cartesian(rsd.take(i as int), rd) + role_row(
                    rsd[i as int],
                    rd,
                ).take(j as int),
            decreases regions@.len() - j,
        {
            let ghost old_r = r.deep_view();
            r.push(ScopeTask { role: Some(roles[i].clone()), region: regions[j].clone() });
            proof {
                assert(r.deep_view() =~= old_r.push((rsd[i as int], rd[j as int])));
                assert(role_row(rsd[i as int], rd).take(j + 1) =~= role_row(
                    rsd[i as int],
                    rd,
                ).take(j as int).push((rsd[i as int], rd[j as int])));
                assert(r.deep_view() =~= cartesian(rsd.take(i as int), rd) + role_row(
                    rsd[i as int],
                    rd,
                ).take(j + 1));
            }
            j = j + 1;
        }
        proof {
            assert(role_row(rsd[i as int], rd).take(rd.len() as int) =~= role_row(
                rsd[i as int],
                rd,
            ));
            assert(rsd.take(i + 1).drop_last() =~= rsd.take(i as int));
            assert(rsd.take(i + 1).last() == rsd[i as int]);
        }
        i = i + 1;
    }
    proof {
        assert(rsd.take(roles@.len() as int) =~= rsd);
    }
    r
}

/// The role ARN synthesized for a discovered account: the fixed partition
/// and service prefix, the account id, and the sub-role path.
pub open spec fn role_arn_spec(account_id: Seq<char>, sub_role: Seq<char>) -> Seq<char> {
    "arn:aws:iam::"@ + account_id + ":role"@ + sub_role
}

/// Builds the role ARN for one discovered account.
pub fn role_arn(account_id: &str, sub_role: &str) -> (r: String)
    ensures
        r@ == role_arn_spec(account_id@, sub_role@),
{
    let mut s = String::from_str("arn:aws:iam::");
    s.append(account_id);
    s.append(":role");
    s.append(sub_role);
    s
}

/// The synthesized role of every discovered account.
pub open spec fn discovered_roles(accounts: Seq<Seq<char>>, sub_role: Seq<char>) -> Seq<
    Option<Seq<char>>,
> {
    Seq::new(accounts.len(), |i: int| Some(role_arn_spec(accounts[i], sub_role)))
}

/// Plans the scopes for the organization-discovery mode: the synthesized
/// role of each discovered account, assumed in each region.
pub fn plan_discover_scopes(accounts: &Vec<String>, sub_role: &str, regions: &Vec<String>) -> (r:
    Vec<ScopeTask>)
    ensures
        r.deep_view() == cartesian(
            discovered_roles(accounts.deep_view(), sub_role@),
            regions.deep_view(),
        ),
{
    let mut roles: Vec<String> = Vec::new();
    let mut i: usize = 0;
    while i < accounts.len()
        invariant
            0 <= i <= accounts@.len(),
            accounts.deep_view().len() == accounts@.len(),
            roles.deep_view().len() == i,
            forall|k: int|
                0 <= k < i ==> roles.deep_view()[k] == role_arn_spec(
                    #[trigger] accounts.deep_view()[k],
                    sub_role@,
                ),
        decreases accounts@.len() - i,
    {
        let ghost old_r = roles.deep_view();
        roles.push(role_arn(accounts[i].as_str(), sub_role));
        proof {
            assert(roles.deep_view() =~= old_r.push(
                role_arn_spec(accounts.deep_view()[i as int], sub_role@),
            ));
        }
        i = i + 1;
    }
    proof {
        assert(as_roles(roles.deep_view()) =~= discovered_roles(accounts.deep_view(), sub_role@));
    }
    plan_assume_scopes(&roles, regions)
}

/// The regions to manage: the configured ones, or the ambient region alone.
pub fn effective_regions(configured: &Option<Vec<String>>, ambient: &str) -> (r: Vec<String>)
    ensures
        match configured {
            Some(v) => r.deep_view() == v.deep_view(),
            None => r.deep_view() == seq![ambient@],
        },
{
    match configured {
        Some(v) => {
            let mut r: Vec<String> = Vec::new();
            let mut i: usize = 0;
            while i < v.len()
                invariant
                    0 <= i <= v@.len(),
                    r.deep_view() =~= v.deep_view().take(i as int),
                decreases v@.len() - i,
            {
                let ghost old_r = r.deep_view();
                r.push(v[i].clone());
                proof {
                    assert(r.deep_view() =~= old_r.push(v.deep_view()[i as int]));
                    assert(r.deep_view() =~= v.deep_view().take(i + 1));
                }
                i = i + 1;
            }
            proof {
                assert(v.deep_view().take(v@.len() as int) =~= v.deep_view());
            }
            r
        },
        None => {
            let mut r: Vec<String> = Vec::new();
            r.push(String::from_str(ambient));
            proof {
                assert(r.deep_view() =~= seq![ambient@]);
            }
            r
        },
    }
}

} // verus!
