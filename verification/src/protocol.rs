//! The wire envelope: the request and response shapes that a network
//! layer carries.  The engine's keys, values and errors flow through
//! them verbatim; serialization of the envelope itself is the transport
//! caller's concern.

use vstd::prelude::*;

use crate::KvsError;
use crate::store::FileOp;
use crate::store::KvStore;
use crate::store::apply_ops;
use crate::store::files_of;

verus! {

/// One request against the engine.
#[derive(Debug)]
pub enum KvRequest<K, V> {
    Put((K, V)),
    Rm(K),
    Get(K),
}

/// The engine's answer: the value for a `Get` that hit, `None` for a
/// miss or a plain acknowledgement, or the operation's error.
#[derive(Debug)]
pub struct KvResponse<V> {
    pub value: Result<Option<V>, KvsError>,
}

/// Serve one request against the store and build its response.  The
/// returned instructions mirror whatever the operation did to the
/// directory image; a `Get` and every failed operation leave it
/// untouched.
pub fn handle_request(store: &mut KvStore, req: KvRequest<String, String>) -> (r: (
    KvResponse<String>,
    Vec<FileOp>,
))
    requires
        old(store).wf(),
    ensures
        final(store).wf(),
        files_of(final(store).segments@) == apply_ops(files_of(old(store).segments@), r.1@),
        (match req {
            KvRequest::Get(k) => *final(store) == *old(store) && (match r.0.value {
                Ok(v) => match v {
                    Some(s) => old(store)@.contains_key(k@) && s@ == old(store)@[k@],
                    None => !old(store)@.contains_key(k@),
                },
                Err(_) => false,
            }),
            KvRequest::Put(kv) => r.0.value is Ok ==> final(store)@ == old(store)@.insert(
                kv.0@,
                kv.1@,
            ) && r.0.value->Ok_0 is None,
            KvRequest::Rm(k) => {
                &&& (r.0.value is Ok ==> old(store)@.contains_key(k@) && final(store)@ == old(
                    store,
                )@.remove(k@))
                &&& (!old(store)@.contains_key(k@) ==> r.0.value is Err
                    && r.0.value->Err_0 is NonExistantKey)
            },
        }),
        r.0.value is Err ==> final(store)@ == old(store)@,
{
    match req {
        KvRequest::Put(kv) => {
            let (k, v) = kv;
            match store.set(k, v) {
                Ok(ops) => (KvResponse { value: Ok(None) }, ops),
                Err(e) => {
                    let ops: Vec<FileOp> = Vec::new();
                    (KvResponse { value: Err(e) }, ops)
                },
            }
        },
        KvRequest::Rm(k) => {
            match store.remove(k) {
                Ok(ops) => (KvResponse { value: Ok(None) }, ops),
                Err(e) => {
                    let ops: Vec<FileOp> = Vec::new();
                    (KvResponse { value: Err(e) }, ops)
                },
            }
        },
        KvRequest::Get(k) => {
            let ops: Vec<FileOp> = Vec::new();
            match store.get(k) {
                Ok(v) => (KvResponse { value: Ok(v) }, ops),
                Err(e) => (KvResponse { value: Err(e) }, ops),
            }
        },
    }
}

} // verus!
