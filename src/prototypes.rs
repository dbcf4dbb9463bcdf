use vstd::prelude::*;
use vstd::string::StringSliceAdditionalSpecFns;

verus! {

/// How the goods of a company reach their buyers.
#[derive(Clone, Copy, Debug, PartialEq, Eq, Structural)]
pub enum CompanyKind {
    /// Buyers come to get their goods.
    Store,
    /// Buyers get their goods delivered to them.
    Factory,
}

/// The name a prototype file gives each kind, as bytes: `store` and `factory`.
pub open spec fn kind_name(k: CompanyKind) -> Seq<u8> {
    match k {
        CompanyKind::Store => seq![115u8, 116, 111, 114, 101],
        CompanyKind::Factory => seq![102u8, 97, 99, 116, 111, 114, 121],
    }
}

fn bytes_equal(a: &[u8], b: &[u8]) -> (r: bool)
    ensures
        r <==> a@ == b@,
{
    if a.len() != b.len() {
        return false;
    }
    let mut i: usize = 0;
    while i < a.len()
        invariant
            i <= a@.len(),
            a@.len() == b@.len(),
            forall|j: int| 0 <= j < i ==> a@[j] == b@[j],
        decreases a@.len() - i,
    {
        if a[i] != b[i] {
            return false;
        }
        i += 1;
    }
    proof {
        assert(a@ =~= b@);
    }
    true
}

impl CompanyKind {
    /// The kind named `s`; `None` for any other name.
    pub fn from_name(s: &str) -> (r: Option<CompanyKind>)
        ensures
            r matches Some(k) ==> s.spec_bytes() == kind_name(k),
            r is None <==> s.spec_bytes() != kind_name(CompanyKind::Store) && s.spec_bytes() != kind_name(
                CompanyKind::Factory,
            ),
    {
        let b = s.as_bytes();
        let store: [u8; 5] = [115u8, 116, 111, 114, 101];
        let factory: [u8; 7] = [102u8, 97, 99, 116, 111, 114, 121];
        proof {
            assert(store@ =~= kind_name(CompanyKind::Store));
            assert(factory@ =~= kind_name(CompanyKind::Factory));
        }
        if bytes_equal(b, store.as_slice()) {
            Some(CompanyKind::Store)
        } else if bytes_equal(b, factory.as_slice()) {
            Some(CompanyKind::Factory)
        } else {
            None
        }
    }
}

} // verus!
