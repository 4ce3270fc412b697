//! The runtime configuration: the registry built from the `name=prefix`
//! directives, the selected authentication mode, the regions, and the two
//! derived tag keys. Immutable once assembled.

use vstd::prelude::*;

use crate::registry::{Registry, group_pairs};
use crate::scope::{AuthMode, auth_mode_of, select_auth_mode};

verus! {

/// Everything one run needs, assembled once at startup.
#[derive(Debug, Clone)]
pub struct App {
    /// Group name to network prefixes, from the repeated cidr directives.
    pub cidrs: Registry,
    /// Prefixes marked for deprecation; collected, not yet acted on.
    pub delete_cidrs: Vec<String>,
    pub auth_mode: AuthMode,
    /// The configured regions; none means the ambient region alone.
    pub regions: Option<Vec<String>>,
    /// The sources tag key, `<ingress-key>/sources`.
    pub ingress_sources: String,
    /// The ports tag key, `<ingress-key>/ports`.
    pub ingress_ports: String,
    pub dry_run: bool,
    pub once: bool,
}

impl App {
    /// Assembles the configuration from parsed command-line values; `None`
    /// exactly when the credential settings are contradictory: a root role
    /// given without a sub-role.
    pub fn assemble(
        cidr: Vec<(String, String)>,
        assume_roles: Option<Vec<String>>,
        root_role: Option<String>,
        sub_role: Option<String>,
        regions: Option<Vec<String>>,
        ingress_key: &str,
        dry_run: bool,
        once: bool,
        deprecate: Option<Vec<String>>,
    ) -> (r: Option<App>)
        ensures
            match r {
                Some(app) => auth_mode_of(assume_roles, root_role, sub_role) == Some(app.auth_mode)
                    && app.cidrs@ == group_pairs(cidr.deep_view()) && app.delete_cidrs.deep_view()
                    == (match deprecate {
                    Some(d) => d.deep_view(),
                    None => Seq::<Seq<char>>::empty(),
                }) && app.regions == regions && app.ingress_sources@ == ingress_key@ + "/sources"@
                    && app.ingress_ports@ == ingress_key@ + "/ports"@ && app.dry_run == dry_run
                    && app.once == once,
                None => auth_mode_of(assume_roles, root_role, sub_role) is None,
            },
    {
        match select_auth_mode(assume_roles, root_role, sub_role) {
            None => None,
            Some(auth_mode) => {
                let mut ingress_sources = String::from_str(ingress_key);
                ingress_sources.append("/sources");
                let mut ingress_ports = String::from_str(ingress_key);
                ingress_ports.append("/ports");
                let delete_cidrs = match deprecate {
                    Some(d) => d,
                    None => Vec::new(),
                };
                proof {
                    if deprecate is None {
                        assert(delete_cidrs.deep_view() =~= Seq::<Seq<char>>::empty());
                    }
                }
                Some(
                    App {
                        cidrs: Registry::new(cidr),
                        delete_cidrs,
                        auth_mode,
                        regions,
                        ingress_sources,
                        ingress_ports,
                        dry_run,
                        once,
                    },
                )
            },
        }
    }
}

} // verus!
