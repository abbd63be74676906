//! The target model: one concrete scan endpoint, plus the address-family
//! preference that steers domain resolution.

use vstd::prelude::*;

use crate::addr::IpAddress;

verus! {

/// Which address family to keep when a domain name resolves to both.
/// Set once at startup and passed into every resolution call.
#[derive(Debug, Clone, Copy, PartialEq, Eq, Structural)]
pub enum AddressFamilyPreference {
    Ipv4First,
    Ipv6First,
}

impl Default for AddressFamilyPreference {
    /// The default preference keeps IPv4 answers.
    fn default() -> (r: Self)
        ensures
            r == AddressFamilyPreference::Ipv4First,
    {
        AddressFamilyPreference::Ipv4First
    }
}

/// Mathematical image of a [`Target`].
pub struct TargetView {
    pub address: IpAddress,
    pub ports: Seq<u16>,
    pub origin: Option<Seq<char>>,
}

/// One concrete scan endpoint: a validated literal address, the ports to
/// probe on it (empty means no port-specific probing), and the original
/// multi-address token it was expanded from (`None` when the user supplied
/// the bare literal).
#[derive(Debug, Clone, PartialEq)]
pub struct Target {
    pub address: IpAddress,
    pub ports: Vec<u16>,
    pub origin: Option<String>,
}

impl View for Target {
    type V = TargetView;

    open spec fn view(&self) -> TargetView {
        TargetView {
            address: self.address,
            ports: self.ports@,
            origin: match self.origin {
                Some(s) => Some(s@),
                None => None,
            },
        }
    }
}

/// The views of a sequence of targets.
pub open spec fn targets_view(v: Seq<Target>) -> Seq<TargetView> {
    v.map_values(|t: Target| t@)
}

/// Each address of `addrs` as a target with the same ports and origin.
pub open spec fn targets_with(
    addrs: Seq<IpAddress>,
    ports: Seq<u16>,
    origin: Option<Seq<char>>,
) -> Seq<TargetView> {
    addrs.map_values(|a: IpAddress| TargetView { address: a, ports: ports, origin: origin })
}

fn clone_ports(p: &Vec<u16>) -> (r: Vec<u16>)
    ensures
        r@ == p@,
{
    let r = p.clone();
    proof {
        assert(r@ =~= p@);
    }
    r
}

fn clone_origin(o: &Option<String>) -> (r: Option<String>)
    ensures
        match (r, o) {
            (Some(a), Some(b)) => a@ == b@,
            (None, None) => true,
            _ => false,
        },
{
    match o {
        Some(s) => Some(s.clone()),
        None => None,
    }
}

/// Builds one target per address, all sharing `ports` and `origin`.
pub fn make_targets(addrs: &Vec<IpAddress>, ports: &Vec<u16>, origin: &Option<String>) -> (r: Vec<
    Target,
>)
    ensures
        targets_view(r@) == targets_with(
            addrs@,
            ports@,
            match origin {
                Some(s) => Some(s@),
                None => None,
            },
        ),
{
    let ghost ov: Option<Seq<char>> = match origin {
        Some(s) => Some(s@),
        None => None,
    };
    let mut out: Vec<Target> = Vec::new();
    let mut i: usize = 0;
    proof {
        assert(targets_view(out@) =~= targets_with(addrs@, ports@, ov).take(0));
    }
    while i < addrs.len()
        invariant
            0 <= i <= addrs@.len(),
            ov == match origin {
                Some(s) => Some(s@),
                None => None,
            },
            targets_view(out@) == targets_with(addrs@, ports@, ov).take(i as int),
        decreases addrs@.len() - i,
    {
        let t = Target { address: addrs[i], ports: clone_ports(ports), origin: clone_origin(
            origin,
        ) };
        proof {
            assert(t@ == targets_with(addrs@, ports@, ov)[i as int]);
        }
        let ghost prev = out@;
        let ghost tv = t@;
        out.push(t);
        proof {
            prev.lemma_push_map_commute(|x: Target| x@, out@[i as int]);
            assert(targets_view(out@) == targets_view(prev).push(tv));
            assert(targets_view(out@) =~= targets_with(addrs@, ports@, ov).take(i + 1int));
        }
        i = i + 1;
    }
    proof {
        assert(targets_with(addrs@, ports@, ov).take(addrs@.len() as int) =~= targets_with(
            addrs@,
            ports@,
            ov,
        ));
    }
    out
}

} // verus!
