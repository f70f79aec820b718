use vstd::prelude::*;

verus! {

/// A 48-bit link-layer (Ethernet) address.
#[derive(Clone, Copy, Debug)]
pub struct MacAddr {
    pub octets: [u8; 6],
}

impl View for MacAddr {
    type V = Seq<u8>;

    open spec fn view(&self) -> Seq<u8> {
        self.octets@
    }
}

/// True when every octet of `m` is `0xff`.
pub open spec fn is_broadcast_spec(m: Seq<u8>) -> bool {
    m.len() == 6 && forall|i: int| 0 <= i < 6 ==> m[i] == 0xff
}

/// What hwaddr's text parser yields for `s`: the six octets, or nothing when
/// the text is rejected.
pub uninterp spec fn hwaddr_text(s: Seq<char>) -> Option<Seq<u8>>;

/// Relies on `<hwaddr::HwAddr as FromStr>::from_str` and `HwAddr::octets`:
/// the outcome depends on the text alone.
#[verifier::external_body]
fn parse_hwaddr(s: &str) -> (r: Option<[u8; 6]>)
    ensures
        match r {
            Some(o) => hwaddr_text(s@) == Some(o@),
            None => hwaddr_text(s@) is None,
        },
{
    s.parse::<hwaddr::HwAddr>().ok().map(|a| a.octets())
}

impl MacAddr {
    /// Builds an address from its six octets, most significant first.
    pub fn new(octets: [u8; 6]) -> (r: MacAddr)
        ensures
            r@ == octets@,
    {
        MacAddr { octets }
    }

    /// The all-ones broadcast address `ff:ff:ff:ff:ff:ff`.
    pub fn broadcast() -> (r: MacAddr)
        ensures
            is_broadcast_spec(r@),
    {
        let r = MacAddr { octets: [0xff, 0xff, 0xff, 0xff, 0xff, 0xff] };
        assert(is_broadcast_spec(r@)) by {
            assert(r@ =~= seq![0xffu8, 0xff, 0xff, 0xff, 0xff, 0xff]);
        }
        r
    }

    /// Parses the usual text form (`9c:69:b4:61:c0:b1`, `-` also separates).
    pub fn parse(s: &str) -> (r: Option<MacAddr>)
        ensures
            match r {
                Some(m) => hwaddr_text(s@) == Some(m@),
                None => hwaddr_text(s@) is None,
            },
    {
        match parse_hwaddr(s) {
            Some(o) => Some(MacAddr { octets: o }),
            None => None,
        }
    }

    pub fn octets(&self) -> (r: [u8; 6])
        ensures
            r@ == self@,
    {
        self.octets
    }

    /// True for the broadcast address.
    pub fn is_broadcast(&self) -> (r: bool)
        ensures
            r == is_broadcast_spec(self@),
    {
        let o = &self.octets;
        let r = o[0] == 0xff && o[1] == 0xff && o[2] == 0xff && o[3] == 0xff && o[4] == 0xff
            && o[5] == 0xff;
        proof {
            if r {
                assert forall|i: int| 0 <= i < 6 implies self@[i] == 0xff by {
                    assert(0 <= i < 6);
                }
            }
        }
        r
    }

    /// Octet-wise equality.
    pub fn same(&self, other: &MacAddr) -> (r: bool)
        ensures
            r == (self@ == other@),
    {
        let a = &self.octets;
        let b = &other.octets;
        let r = a[0] == b[0] && a[1] == b[1] && a[2] == b[2] && a[3] == b[3] && a[4] == b[4]
            && a[5] == b[5];
        proof {
            if r {
                assert(self@ =~= other@);
            }
        }
        r
    }
}

impl PartialEq for MacAddr {
    fn eq(&self, other: &MacAddr) -> (r: bool) {
        self.same(other)
    }
}

impl vstd::std_specs::cmp::PartialEqSpecImpl for MacAddr {
    open spec fn obeys_eq_spec() -> bool {
        true
    }

    open spec fn eq_spec(&self, other: &MacAddr) -> bool {
        self@ == other@
    }
}

impl Eq for MacAddr {}

} // verus!
