//! The request service: dispatch one materialized argument list against
//! the store and produce the reply value. An unknown keyword or a wrong
//! arity earns an error reply and leaves the store untouched; the
//! connection stays usable for the next frame.

use crate::arena::{bytes_as_slice, bytes_view};
use crate::command::{kw_del, kw_get, kw_set, Arguments, Cmd};
use crate::store::{spec_del_count, spec_del_map, views_of, Store};
use crate::value::Value;
use bytes::Bytes;
use vstd::prelude::*;
use vstd::slice::slice_to_vec;

verus! {

/// The text of the reply to an unrecognized request.
pub open spec fn unknown_reply_text() -> Seq<char> {
    "Unknown Command"@
}

/// The views of a materialized argument list.
pub open spec fn bytes_args_views(s: Seq<Bytes>) -> Seq<Seq<u8>> {
    s.map_values(|b: Bytes| bytes_view(b))
}

/// An owned copy of a shared byte view's contents.
fn bytes_to_vec(b: &Bytes) -> (r: Vec<u8>)
    ensures
        r@ == bytes_view(*b),
{
    slice_to_vec(bytes_as_slice(b))
}

/// The service around one store.
pub struct RedisService {
    store: Store,
}

impl View for RedisService {
    type V = Map<Seq<u8>, Seq<u8>>;

    closed spec fn view(&self) -> Map<Seq<u8>, Seq<u8>> {
        self.store@
    }
}

impl RedisService {
    /// The store is well formed: its keys are unique.
    pub closed spec fn wf(&self) -> bool {
        self.store.wf()
    }

    /// A service over the given store.
    pub fn new(store: Store) -> (r: Self)
        ensures
            r@ == store@,
            store.wf() ==> r.wf(),
    {
        RedisService { store }
    }

    /// Serve one request: dispatch the argument list as a command and
    /// run it against the store. A request that names no supported
    /// command with the right arity changes nothing and earns the
    /// error reply; the others behave as the store's commands do.
    pub fn call(&mut self, req: Arguments<Bytes>) -> (r: Value)
        requires
            old(self).wf(),
        ensures
            final (self).wf(),
            ({
                let vs = bytes_args_views(req@);
                let m0 = old(self)@;
                let m1 = final (self)@;
                let ok_get = vs.len() == 2 && vs[0] == kw_get();
                let ok_set = vs.len() == 3 && vs[0] == kw_set();
                let ok_del = vs.len() >= 2 && vs[0] == kw_del();
                &&& ok_get ==> m1 == m0 && (m0.contains_key(vs[1]) ==> (r matches Value::Data(d)
                    && d@ == m0[vs[1]])) && (!m0.contains_key(vs[1]) ==> r is Nil)
                &&& ok_set ==> m1 == m0.insert(vs[1], vs[2]) && r is Okay
                &&& ok_del ==> ({
                    let ks = vs.skip(1);
                    let total = spec_del_count(m0, ks, ks.len() as int);
                    &&& m1 == spec_del_map(m0, ks, ks.len() as int)
                    &&& (r matches Value::Int(n) && n == (if total <= i64::MAX {
                        total
                    } else {
                        i64::MAX as int
                    }))
                })
                &&& !(ok_get || ok_set || ok_del) ==> m1 == m0 && (r matches Value::Status(s)
                    && s@ == unknown_reply_text())
            }),
    {
        let ghost vs = bytes_args_views(req@);
        match Cmd::from_args(req) {
            None => Value::Status("Unknown Command".to_owned()),
            Some(cmd) => {
                let owned: Cmd<Vec<u8>> = match cmd {
                    Cmd::GET { key } => Cmd::GET { key: bytes_to_vec(&key) },
                    Cmd::SET { key, value } => Cmd::SET {
                        key: bytes_to_vec(&key),
                        value: bytes_to_vec(&value),
                    },
                    Cmd::DEL { keys } => {
                        let mut converted: Arguments<Vec<u8>> = Arguments::NoArgs;
                        let mut it = keys.iter();
                        loop
                            invariant
                                it.args == &keys,
                                it.index <= keys@.len(),
                                converted@.len() == it.index,
                                forall|k: int|
                                    0 <= k < it.index ==> (#[trigger] converted@[k])@
                                        == bytes_view(keys@[k]),
                            ensures
                                converted@.len() == keys@.len(),
                                forall|k: int|
                                    0 <= k < keys@.len() ==> (#[trigger] converted@[k])@
                                        == bytes_view(keys@[k]),
                            decreases keys@.len() - it.index,
                        {
                            match it.next() {
                                Some(b) => {
                                    converted.push(bytes_to_vec(b));
                                },
                                None => {
                                    break ;
                                },
                            }
                        }
                        proof {
                            assert(vs.len() == req@.len());
                            assert(views_of(converted@).len() == converted@.len());
                            assert(converted@.len() == keys@.len());
                            assert(keys@.len() == req@.len() - 1);
                            assert forall|k: int| 0 <= k < converted@.len() implies #[trigger] views_of(
                                converted@,
                            )[k] == vs.skip(1)[k] by {
                                assert(views_of(converted@)[k] == converted@[k]@);
                                assert(vs[k + 1] == bytes_view(req@[k + 1]));
                            }
                            assert(views_of(converted@) =~= vs.skip(1));
                        }
                        Cmd::DEL { keys: converted }
                    },
                };
                self.store.run_command(owned)
            },
        }
    }
}

} // verus!
