//! A canonical delta of one scope and one formatting is known by what it
//! does to a document whose units are all different.

use crate::convergence::{plain, plain_op};
use crate::laws::canonical;
use crate::model;
use crate::operation::OpModel;
use crate::scope::OperationScope;
use crate::semantics::{apply, behind, front, lemma_apply_front, news, olds, step, Item};
use crate::traits::{Attributes, Data};
use crate::walk;
use vstd::prelude::*;

verus! {

/// What `ops` gives when applied to the units of a base document from place
/// `k` up to place `n`.
pub open spec fn out<D: Data, T: Attributes>(
    ops: Seq<OpModel<D, T>>,
    k: int,
    n: int,
    s: OperationScope,
) -> Seq<Item<D::Unit>> {
    apply(ops, olds(k, n), s).0
}

/// A canonical plain delta that fits the units from `k` up to `n`.
pub open spec fn fitting<D: Data, T: Attributes>(
    ops: Seq<OpModel<D, T>>,
    k: int,
    n: int,
    s: OperationScope,
    e: T::Model,
) -> bool {
    &&& canonical(ops)
    &&& plain(ops, s, e)
    &&& 0 <= k <= n
    &&& model::base_len(ops, s) <= n - k
}

/// The place in the base document behind what `op` consumes from place `k`.
pub open spec fn place_behind<D: Data, T: Attributes>(op: OpModel<D, T>, k: int) -> int {
    if op is Insert {
        k
    } else {
        k + op.len()
    }
}

pub proof fn lemma_olds_split<U>(k: int, n: int, j: nat)
    requires
        0 <= k,
        k + j <= n,
    ensures
        front(olds::<U>(k, n), j) == olds::<U>(k, k + j),
        behind(olds::<U>(k, n), j) == olds::<U>(k + j, n),
{
    assert(front(olds::<U>(k, n), j) =~= olds::<U>(k, k + j));
    assert(behind(olds::<U>(k, n), j) =~= olds::<U>(k + j, n));
}

/// What a fitting delta gives is what its first operation gives, and then
/// what the rest gives from the place behind it.
pub proof fn lemma_out_front<D: Data, T: Attributes>(
    ops: Seq<OpModel<D, T>>,
    k: int,
    n: int,
    s: OperationScope,
    e: T::Model,
)
    requires
        fitting(ops, k, n, s, e),
        ops.len() > 0,
    ensures
        fitting(ops.drop_first(), place_behind(ops[0], k), n, s, e),
        ops[0].len() > 0,
        plain_op(ops[0], s, e),
        model::base_len(ops, s) == ops[0].base_in(s) + model::base_len(ops.drop_first(), s),
        out(ops, k, n, s) == (match ops[0] {
            OpModel::Delete(_, j) => Seq::empty(),
            OpModel::Retain(_, j, _) => olds(k, k + j),
            OpModel::Insert(_, data, _) => news(data),
        }) + out(ops.drop_first(), place_behind(ops[0], k), n, s),
        ops.len() > 1 ==> !ops[0].same_run(ops[1]) && !(ops[0] is Delete && ops[1] is Insert),
{
    let df = ops.drop_first();
    let em = Seq::<Item<D::Unit>>::empty();
    assert(plain_op(ops[0], s, e));
    assert(ops[0].len() > 0);
    walk::lemma_len_front(ops, s);
    assert forall|i: int| 0 <= i < df.len() implies plain_op(#[trigger] df[i], s, e) && df[i].len()
        > 0 by {
        assert(df[i] == ops[i + 1]);
    }
    assert forall|i: int| 0 < i < df.len() implies !(#[trigger] df[i - 1]).same_run(df[i]) && !(
    df[i - 1] is Delete && df[i] is Insert) by {
        let j = i + 1;
        assert(df[i - 1] == ops[j - 1]);
        assert(df[i] == ops[j]);
        assert(!ops[j - 1].same_run(ops[j]));
    }
    if ops.len() > 1 {
        let j = 1int;
        assert(!ops[j - 1].same_run(ops[j]));
        assert(!(ops[j - 1] is Delete && ops[j] is Insert));
    }
    lemma_apply_front(ops, olds(k, n), s);
    let st = step((em, olds::<D::Unit>(k, n)), ops[0], s);
    if !(ops[0] is Insert) {
        lemma_olds_split::<D::Unit>(k, n, ops[0].len());
    }
    assert(st.0 =~= match ops[0] {
        OpModel::Delete(_, j) => em,
        OpModel::Retain(_, j, _) => olds(k, k + j),
        OpModel::Insert(_, data, _) => news(data),
    });
}

/// The first unit that a fitting delta gives tells the kind of its first
/// operation: a unit inserted for an insert, the unit at the place reached
/// for a retain, and a unit further on, or none, for a delete.
pub proof fn lemma_first_item<D: Data, T: Attributes>(
    ops: Seq<OpModel<D, T>>,
    k: int,
    n: int,
    s: OperationScope,
    e: T::Model,
)
    requires
        fitting(ops, k, n, s, e),
    ensures
        ops.len() == 0 ==> out(ops, k, n, s).len() == 0,
        ops.len() > 0 && ops[0] is Insert ==> out(ops, k, n, s).len() > 0 && out(ops, k, n, s)[0] is New,
        ops.len() > 0 && ops[0] is Retain ==> out(ops, k, n, s).len() > 0 && out(ops, k, n, s)[0]
            == Item::<D::Unit>::Old(k),
        ops.len() > 0 && ops[0] is Delete ==> (ops.len() == 1 && out(ops, k, n, s).len() == 0) || (
        ops.len() > 1 && out(ops, k, n, s).len() > 0 && out(ops, k, n, s)[0] == Item::<D::Unit>::Old(
            k + ops[0].len(),
        )),
    decreases ops.len(),
{
    if ops.len() > 0 {
        lemma_out_front(ops, k, n, s, e);
        let df = ops.drop_first();
        let k2 = place_behind(ops[0], k);
        if ops[0] is Delete {
            lemma_first_item(df, k2, n, s, e);
            if df.len() > 0 {
                assert(df[0] == ops[1]);
                assert(plain_op(df[0], s, e));
            }
            assert(Seq::<Item<D::Unit>>::empty() + out(df, k2, n, s) =~= out(df, k2, n, s));
        }
    }
}

/// Where two fitting deltas that consume the same give the same, they begin
/// with the same operation, and their rests give the same from the place
/// behind it.
proof fn lemma_same_first<D: Data, T: Attributes>(
    p: Seq<OpModel<D, T>>,
    q: Seq<OpModel<D, T>>,
    k: int,
    n: int,
    s: OperationScope,
    e: T::Model,
)
    requires
        fitting(p, k, n, s, e),
        fitting(q, k, n, s, e),
        model::base_len(p, s) == model::base_len(q, s),
        out(p, k, n, s) == out(q, k, n, s),
        p.len() > 0,
    ensures
        q.len() > 0,
        q[0] == p[0],
        out(p.drop_first(), place_behind(p[0], k), n, s) == out(
            q.drop_first(),
            place_behind(p[0], k),
            n,
            s,
        ),
{
    let em = Seq::<Item<D::Unit>>::empty();
    let o = out(p, k, n, s);
    let p2 = p.drop_first();
    let k2 = place_behind(p[0], k);
    lemma_first_item(p, k, n, s, e);
    lemma_first_item(q, k, n, s, e);
    lemma_out_front(p, k, n, s, e);
    lemma_first_item(p2, k2, n, s, e);
    let op2 = out(p2, k2, n, s);
    if p2.len() > 0 {
        assert(p2[0] == p[1]);
        assert(plain_op(p2[0], s, e));
    }
    if q.len() == 0 {
        assert(model::base_len(q, s) == 0);
    } else {
        lemma_out_front(q, k, n, s, e);
        let q2 = q.drop_first();
        let kq = place_behind(q[0], k);
        lemma_first_item(q2, kq, n, s, e);
        let oq2 = out(q2, kq, n, s);
        if q2.len() > 0 {
            assert(q2[0] == q[1]);
            assert(plain_op(q2[0], s, e));
        }
        match p[0] {
            OpModel::Insert(_, dp, _) => {
                assert(q[0] is Insert);
                let dq = q[0].data();
                assert(o == news(dp) + op2);
                assert(o == news(dq) + oq2);
                if dp.len() < dq.len() {
                    assert(o[dp.len() as int] == news(dq)[dp.len() as int]);
                    if op2.len() > 0 {
                        assert(o[dp.len() as int] == op2[0]);
                    }
                } else if dq.len() < dp.len() {
                    assert(o[dq.len() as int] == news(dp)[dq.len() as int]);
                    if oq2.len() > 0 {
                        assert(o[dq.len() as int] == oq2[0]);
                    }
                }
                assert(dp.len() == dq.len());
                assert forall|i: int| 0 <= i < dp.len() implies dp[i] == dq[i] by {
                    assert(o[i] == news(dp)[i]);
                    assert(o[i] == news(dq)[i]);
                }
                assert(dp =~= dq);
                assert(op2 =~= o.skip(dp.len() as int));
                assert(oq2 =~= o.skip(dp.len() as int));
            },
            OpModel::Retain(_, jp, _) => {
                assert(q[0] is Retain);
                let jq = q[0].len();
                assert(o == olds::<D::Unit>(k, k + jp) + op2);
                assert(o == olds::<D::Unit>(k, k + jq) + oq2);
                if jp < jq {
                    assert(o[jp as int] == olds::<D::Unit>(k, k + jq)[jp as int]);
                    if op2.len() > 0 {
                        assert(o[jp as int] == op2[0]);
                    }
                } else if jq < jp {
                    assert(o[jq as int] == olds::<D::Unit>(k, k + jp)[jq as int]);
                    if oq2.len() > 0 {
                        assert(o[jq as int] == oq2[0]);
                    }
                }
                assert(jp == jq);
                assert(op2 =~= o.skip(jp as int));
                assert(oq2 =~= o.skip(jp as int));
            },
            OpModel::Delete(_, jp) => {
                assert(q[0] is Delete);
                let jq = q[0].len();
                assert(em + op2 =~= op2);
                assert(em + oq2 =~= oq2);
                if p2.len() == 0 {
                    assert(q2.len() == 0);
                    assert(model::base_len(p2, s) == 0);
                    assert(model::base_len(q2, s) == 0);
                }
                assert(jp == jq);
            },
        }
    }
}

/// Two canonical plain deltas that consume the same and give the same, from
/// a base document whose units are all different, are the same delta.
pub proof fn lemma_unique<D: Data, T: Attributes>(
    p: Seq<OpModel<D, T>>,
    q: Seq<OpModel<D, T>>,
    k: int,
    n: int,
    s: OperationScope,
    e: T::Model,
)
    requires
        fitting(p, k, n, s, e),
        fitting(q, k, n, s, e),
        model::base_len(p, s) == model::base_len(q, s),
        out(p, k, n, s) == out(q, k, n, s),
    ensures
        p == q,
    decreases p.len(),
{
    if p.len() == 0 {
        lemma_first_item(p, k, n, s, e);
        lemma_first_item(q, k, n, s, e);
        if q.len() > 0 {
            lemma_out_front(q, k, n, s, e);
        }
        assert(p =~= q);
    } else {
        lemma_same_first(p, q, k, n, s, e);
        lemma_out_front(p, k, n, s, e);
        lemma_out_front(q, k, n, s, e);
        let k2 = place_behind(p[0], k);
        lemma_unique(p.drop_first(), q.drop_first(), k2, n, s, e);
        assert forall|i: int| 0 <= i < p.len() implies p[i] == q[i] by {
            if i > 0 {
                assert(p[i] == p.drop_first()[i - 1]);
                assert(q[i] == q.drop_first()[i - 1]);
            }
        }
        assert(p.len() == q.len()) by {
            assert(p.drop_first().len() == q.drop_first().len());
        }
        assert(p =~= q);
    }
}

} // verus!
