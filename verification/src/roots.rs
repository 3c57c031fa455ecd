//! The certificate authorities that a node trusts, as the `rustls` crate holds them.

use rustls::{Certificate, RootCertStore};
use vstd::prelude::*;

use crate::tls::TlsError;

verus! {

/// `rustls::RootCertStore`, as an opaque type.
#[verifier::external_type_specification]
#[verifier::external_body]
pub struct ExRootCertStore(RootCertStore);

/// `rustls::Error`, as an opaque type.
#[verifier::external_type_specification]
#[verifier::external_body]
pub struct ExRustlsError(rustls::Error);

/// The trust anchors in a store, in the order in which they were added. Of each: the
/// subject, the public key, and the constraints on names.
pub uninterp spec fn anchors_of(store: RootCertStore) -> Seq<
    (Seq<u8>, Seq<u8>, Option<Seq<u8>>),
>;

/// The trust anchor that a DER certificate stands for; `None` if it is malformed.
pub uninterp spec fn anchor_in(cert: Seq<u8>) -> Option<(Seq<u8>, Seq<u8>, Option<Seq<u8>>)>;

/// `RootCertStore::empty`: a store without trust anchors.
#[verifier::external_body]
pub(crate) fn empty_store() -> (store: RootCertStore)
    ensures
        anchors_of(store) == Seq::<(Seq<u8>, Seq<u8>, Option<Seq<u8>>)>::empty(),
{
    RootCertStore::empty()
}

/// `RootCertStore::add`: puts the trust anchor of a certificate behind the others. A
/// malformed certificate is refused and leaves the store as it is. Which one is
/// malformed depends on its bytes alone.
#[verifier::external_body]
fn add_root(store: &mut RootCertStore, cert: Vec<u8>) -> (added: Result<(), rustls::Error>)
    ensures
        added is Ok <==> (anchor_in(cert@) is Some),
        anchors_of(*final(store)) == (match anchor_in(cert@) {
            Some(anchor) => anchors_of(*old(store)).push(anchor),
            None => anchors_of(*old(store)),
        }),
{
    store.add(&Certificate(cert))
}

/// Whether all certificates are well-formed.
pub open spec fn well_formed(certs: Seq<Seq<u8>>) -> bool {
    forall|i: int| 0 <= i < certs.len() ==> anchor_in(#[trigger] certs[i]) is Some
}

/// The trust anchors of well-formed certificates.
pub open spec fn anchors(certs: Seq<Seq<u8>>) -> Seq<(Seq<u8>, Seq<u8>, Option<Seq<u8>>)> {
    Seq::new(certs.len(), |i: int| anchor_in(certs[i])->0)
}

/// Makes a store of all the certificates, in their order. A malformed one is an
/// error.
pub fn root_store(certs: Vec<Vec<u8>>) -> (store: Result<RootCertStore, TlsError>)
    ensures
        match store {
            Ok(store) => well_formed(crate::pem::sections(certs@)) && anchors_of(store) == anchors(
                crate::pem::sections(certs@),
            ),
            Err(TlsError::Root(_)) => !well_formed(crate::pem::sections(certs@)),
            Err(_) => false,
        },
{
    let ghost all = crate::pem::sections(certs@);
    let mut store = empty_store();
    assert(anchors_of(store) =~= anchors(all.take(0)));
    for cert in iter: certs
        invariant
            iter.seq() == certs@,
            all == crate::pem::sections(certs@),
            well_formed(all.take(iter.index() as int)),
            anchors_of(store) == anchors(all.take(iter.index() as int)),
    {
        let ghost at = iter.index() as int;
        assert(cert@ == all[at]);
        match add_root(&mut store, cert) {
            Err(error) => {
                return Err(TlsError::Root(error));
            },
            Ok(()) => {
                assert(all.take(at + 1) =~= all.take(at).push(all[at]));
                assert(anchors(all.take(at + 1)) =~= anchors(all.take(at)).push(
                    anchor_in(all[at])->0,
                ));
            },
        }
    }
    assert(all.take(all.len() as int) =~= all);
    Ok(store)
}

} // verus!
