//! The store's laws, stated over the command semantics: what expiration
//! makes a reader see, and that list operations on a key of another kind
//! refuse without touching the entry.

use vstd::prelude::*;

use crate::commands::{spec_execute, wrong_type_msg, CommandModel};
use crate::db::{
    entry_live, expire_effect, lpush_step, rpush_step, EntryModel, StoreModel, ValueModel,
};
use crate::resp::FrameModel;

verus! {

/// Expiration: after a SET of `k` with a time-to-live at time `t0`, a GET
/// of `k` reads the value at any time before `t0 + ttl` and reads nothing
/// from `t0 + ttl` on — and the expired entry is physically removed by the
/// observing GET.
pub proof fn lemma_expiration(m: StoreModel, k: Seq<u8>, v: Seq<u8>, ttl: u64, t0: u64, t1: u64)
    requires
        t0 + ttl <= u64::MAX,
    ensures
        ({
            let m1 = spec_execute(CommandModel::SetCmd(k, v, Some(ttl)), m, t0).1;
            let g = spec_execute(CommandModel::Get(k), m1, t1);
            &&& t1 < t0 + ttl ==> g == (FrameModel::BulkString(v), m1)
            &&& t1 >= t0 + ttl ==> g.0 == FrameModel::Null && g.1 == m1.remove(k)
                && !g.1.contains_key(k)
        }),
{
    let m1 = spec_execute(CommandModel::SetCmd(k, v, Some(ttl)), m, t0).1;
    assert(m1.contains_key(k));
    assert(m1[k] == EntryModel {
        value: ValueModel::Str(v),
        deadline: Some((t0 + ttl) as u64),
    });
    if t1 >= t0 + ttl {
        assert(!entry_live(m1[k], t1));
    } else {
        assert(entry_live(m1[k], t1));
        assert(expire_effect(m1, k, t1) == m1);
    }
}

/// Type discipline: every list operation on a key holding a string value
/// replies with the type error and leaves the store — that entry included
/// — exactly as it was.
pub proof fn lemma_type_discipline(
    m: StoreModel,
    k: Seq<u8>,
    vs: Seq<Seq<u8>>,
    a: int,
    b: int,
    now: u64,
)
    requires
        m.contains_key(k),
        m[k].value is Str,
        entry_live(m[k], now),
    ensures
        spec_execute(CommandModel::RPush(k, vs), m, now) == (
            FrameModel::SimpleError(wrong_type_msg()),
            m,
        ),
        spec_execute(CommandModel::LPush(k, vs), m, now) == (
            FrameModel::SimpleError(wrong_type_msg()),
            m,
        ),
        spec_execute(CommandModel::LRange(k, a, b), m, now) == (
            FrameModel::SimpleError(wrong_type_msg()),
            m,
        ),
        spec_execute(CommandModel::LLen(k), m, now) == (
            FrameModel::SimpleError(wrong_type_msg()),
            m,
        ),
{
    assert(expire_effect(m, k, now) == m);
    assert(rpush_step(m, k, vs, now) is None);
    assert(lpush_step(m, k, vs, now) is None);
}

/// A GET on a live string entry reads exactly the stored bytes and leaves
/// the store unchanged.
pub proof fn lemma_get_string(m: StoreModel, k: Seq<u8>, s: Seq<u8>, now: u64)
    requires
        m.contains_key(k),
        m[k].value == ValueModel::Str(s),
        entry_live(m[k], now),
    ensures
        spec_execute(CommandModel::Get(k), m, now) == (FrameModel::BulkString(s), m),
{
    assert(expire_effect(m, k, now) == m);
}

} // verus!
