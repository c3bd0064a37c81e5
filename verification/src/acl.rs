//! Who may ask: prefixes of addresses, and client names.

use vstd::prelude::*;

use crate::addr::IpAddr;
use crate::net::{any_contains, covered, IpNet};
use crate::transport::ClientInfo;

verus! {

#[derive(Clone, Copy, PartialEq, Eq, Structural, Debug)]
pub enum AclDecision {
    Allow,
    Deny,
}

/// The name stands in the list.
pub open spec fn listed(ids: Seq<String>, id: Seq<char>) -> bool {
    exists|i: int| 0 <= i < ids.len() && (#[trigger] ids[i])@ == id
}

/// The client carries a name, and it stands in the list.
pub open spec fn client_listed(ids: Seq<String>, id: Option<String>) -> bool {
    id matches Some(x) && listed(ids, x@)
}

fn same_text(a: &String, b: &String) -> (r: bool)
    ensures
        r == (a@ == b@),
{
    *a == *b
}

fn is_listed(ids: &Vec<String>, id: &Option<String>) -> (r: bool)
    ensures
        r == client_listed(ids@, *id),
{
    match id {
        None => false,
        Some(x) => {
            let mut i: usize = 0;
            while i < ids.len()
                invariant
                    i <= ids.len(),
                    *id == Some(*x),
                    forall|j: int| 0 <= j < i ==> (#[trigger] ids@[j])@ != x@,
                decreases ids.len() - i,
            {
                if same_text(&ids[i], x) {
                    assert(ids@[i as int]@ == x@);
                    return true;
                }
                i = i + 1;
            }
            false
        },
    }
}

/// A list of who may ask. What is denied stays denied, whatever else allows it.
#[derive(Debug)]
pub struct IpAcl {
    pub allow: Vec<IpNet>,
    pub deny: Vec<IpNet>,
    pub allow_ids: Vec<String>,
    pub deny_ids: Vec<String>,
    /// What holds for a client on none of the lists.
    pub default_allow: bool,
}

impl IpAcl {
    pub open spec fn denies(&self, ip: IpAddr, id: Option<String>) -> bool {
        covered(self.deny@, ip) || client_listed(self.deny_ids@, id)
    }

    pub open spec fn allows(&self, ip: IpAddr, id: Option<String>) -> bool {
        covered(self.allow@, ip) || client_listed(self.allow_ids@, id)
    }

    /// A denial comes first, then what is allowed, then the default.
    pub open spec fn decision(&self, ip: IpAddr, id: Option<String>) -> AclDecision {
        if self.denies(ip, id) {
            AclDecision::Deny
        } else if self.allows(ip, id) || self.default_allow {
            AclDecision::Allow
        } else {
            AclDecision::Deny
        }
    }

    pub fn new(allow: Vec<IpNet>, deny: Vec<IpNet>, default_allow: bool) -> (r: Self)
        ensures
            r.allow == allow,
            r.deny == deny,
            r.allow_ids@.len() == 0,
            r.deny_ids@.len() == 0,
            r.default_allow == default_allow,
    {
        IpAcl { allow, deny, allow_ids: Vec::new(), deny_ids: Vec::new(), default_allow }
    }

    /// The same list with these client names.
    pub fn with_ids(self, allow_ids: Vec<String>, deny_ids: Vec<String>) -> (r: Self)
        ensures
            r == (IpAcl { allow_ids, deny_ids, ..self }),
    {
        IpAcl {
            allow: self.allow,
            deny: self.deny,
            allow_ids,
            deny_ids,
            default_allow: self.default_allow,
        }
    }

    /// Everybody may ask.
    pub fn allow_all() -> (r: Self)
        ensures
            r.allow@.len() == 0,
            r.deny@.len() == 0,
            r.allow_ids@.len() == 0,
            r.deny_ids@.len() == 0,
            r.default_allow,
    {
        Self::new(Vec::new(), Vec::new(), true)
    }

    pub fn check(&self, client: &ClientInfo) -> (r: AclDecision)
        ensures
            r == self.decision(client.source_ip, client.client_id),
    {
        if any_contains(&self.deny, &client.source_ip) {
            return AclDecision::Deny;
        }
        if is_listed(&self.deny_ids, &client.client_id) {
            return AclDecision::Deny;
        }
        if any_contains(&self.allow, &client.source_ip) {
            return AclDecision::Allow;
        }
        if is_listed(&self.allow_ids, &client.client_id) {
            return AclDecision::Allow;
        }
        if self.default_allow {
            AclDecision::Allow
        } else {
            AclDecision::Deny
        }
    }

    /// Whether the list refuses nobody, so that it need not be asked: the default
    /// allows, and nothing is denied.
    pub fn is_trivially_allow(&self) -> (r: bool)
        ensures
            r == (self.default_allow && self.deny@.len() == 0 && self.deny_ids@.len() == 0),
    {
        self.default_allow && self.deny.len() == 0 && self.deny_ids.len() == 0
    }
}

/// A denial wins, whatever is on the other lists and whatever the default is.
pub proof fn law_denial_wins(acl: IpAcl, ip: IpAddr, id: Option<String>)
    requires
        acl.denies(ip, id),
    ensures
        acl.decision(ip, id) == AclDecision::Deny,
{
}

/// Adding rules that allow opens nothing that a rule denies.
pub proof fn law_more_allowances_break_no_denial(
    acl: IpAcl,
    more: IpAcl,
    ip: IpAddr,
    id: Option<String>,
)
    requires
        more.deny == acl.deny,
        more.deny_ids == acl.deny_ids,
        acl.denies(ip, id),
    ensures
        more.decision(ip, id) == AclDecision::Deny,
{
}

/// A list that reports that it refuses nobody allows every client.
pub proof fn law_trivial_lists_refuse_nobody(acl: IpAcl, ip: IpAddr, id: Option<String>)
    requires
        acl.default_allow,
        acl.deny@.len() == 0,
        acl.deny_ids@.len() == 0,
    ensures
        acl.decision(ip, id) == AclDecision::Allow,
{
}

/// Who may ask, rule by rule: an address that a prefix of the deny list covers, or a name
/// on the deny list, is denied whatever else holds; after that a prefix or name of the
/// allow list allows; on no list, the default decides.
pub proof fn law_the_lists_decide(acl: IpAcl, ip: IpAddr, id: Option<String>, k: int)
    ensures
        0 <= k < acl.deny@.len() && acl.deny@[k].covers(ip) ==> acl.decision(ip, id)
            == AclDecision::Deny,
        (0 <= k < acl.deny_ids@.len() && id is Some && acl.deny_ids@[k]@ == id->0@) ==> acl.decision(
            ip,
            id,
        ) == AclDecision::Deny,
        ({
            let denied = (exists|i: int|
                0 <= i < acl.deny@.len() && (#[trigger] acl.deny@[i]).covers(ip)) || (id is Some
                && exists|i: int|
                0 <= i < acl.deny_ids@.len() && (#[trigger] acl.deny_ids@[i])@ == id->0@);
            let allowed = (exists|i: int|
                0 <= i < acl.allow@.len() && (#[trigger] acl.allow@[i]).covers(ip)) || (id is Some
                && exists|i: int|
                0 <= i < acl.allow_ids@.len() && (#[trigger] acl.allow_ids@[i])@ == id->0@);
            &&& !denied && allowed ==> acl.decision(ip, id) == AclDecision::Allow
            &&& !denied && acl.default_allow ==> acl.decision(ip, id) == AclDecision::Allow
            &&& !denied && !allowed && !acl.default_allow ==> acl.decision(ip, id)
                == AclDecision::Deny
        }),
{
    if 0 <= k < acl.deny@.len() && acl.deny@[k].covers(ip) {
        assert(covered(acl.deny@, ip));
    }
    if 0 <= k < acl.deny_ids@.len() && id is Some && acl.deny_ids@[k]@ == id->0@ {
        assert(listed(acl.deny_ids@, id->0@));
    }
}

} // verus!
