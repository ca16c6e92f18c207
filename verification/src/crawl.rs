//! Crawling calls: the functions that known functions call and that the
//! database does not have yet.
use vstd::prelude::*;

use crate::db::DB;
use crate::function::Function;
use crate::segofs::SegOfs;
use crate::xref::{xref_views, XRef, XRefV};

verus! {

/// The addresses of the outside references among `xs`, in order.
pub open spec fn outside_targets(xs: Seq<XRefV>) -> Seq<SegOfs>
    decreases xs.len(),
{
    if xs.len() == 0 {
        Seq::empty()
    } else {
        let rest = outside_targets(xs.drop_last());
        match xs.last() {
            XRefV::External(_, ip) => rest.push(ip),
            _ => rest,
        }
    }
}

/// The outside callees of the functions, function by function.
pub open spec fn callee_targets(fs: Seq<Function>) -> Seq<SegOfs>
    decreases fs.len(),
{
    if fs.len() == 0 {
        Seq::empty()
    } else {
        callee_targets(fs.drop_last()) + match fs.last().callees {
            Some(c) => outside_targets(xref_views(c@)),
            None => Seq::empty(),
        }
    }
}

/// Whether some function of `fs` starts at `ip`.
pub open spec fn has_function(fs: Seq<Function>, ip: SegOfs) -> bool {
    exists|i: int| 0 <= i < fs.len() && fs[i].ip == ip
}

/// The targets in order, each once, without those the database has.
pub open spec fn new_targets(ts: Seq<SegOfs>, fs: Seq<Function>) -> Seq<SegOfs>
    decreases ts.len(),
{
    if ts.len() == 0 {
        Seq::empty()
    } else {
        let q = new_targets(ts.drop_last(), fs);
        if has_function(fs, ts.last()) || q.contains(ts.last()) {
            q
        } else {
            q.push(ts.last())
        }
    }
}

fn push_outside_targets(out: &mut Vec<SegOfs>, xs: &Vec<XRef>)
    ensures
        final(out)@ == old(out)@ + outside_targets(xref_views(xs@)),
{
    let ghost xv = xref_views(xs@);
    let ghost o0 = out@;
    let mut i: usize = 0;
    assert(xv.take(0) =~= Seq::<XRefV>::empty());
    assert(o0 + outside_targets(xv.take(0)) =~= o0);
    while i < xs.len()
        invariant
            i <= xs@.len(),
            xv == xref_views(xs@),
            out@ == o0 + outside_targets(xv.take(i as int)),
        decreases xs@.len() - i,
    {
        assert(xv.take(i + 1).drop_last() =~= xv.take(i as int));
        assert(xv.take(i + 1).last() == xs@[i as int]@);
        match &xs[i] {
            XRef::External(_, ip) => {
                out.push(*ip);
                assert(out@ =~= o0 + outside_targets(xv.take(i + 1)));
            },
            _ => {},
        }
        i += 1;
    }
    assert(xv.take(i as int) =~= xv);
}

fn contains_addr(v: &Vec<SegOfs>, a: SegOfs) -> (r: bool)
    ensures
        r == v@.contains(a),
{
    let mut i: usize = 0;
    while i < v.len()
        invariant
            i <= v@.len(),
            forall|k: int| 0 <= k < i ==> v@[k] != a,
        decreases v@.len() - i,
    {
        if v[i] == a {
            assert(v@[i as int] == a);
            return true;
        }
        i += 1;
    }
    false
}

/// The addresses to visit: each outside callee of each function, in order and
/// once, that is not a function of the database yet.
pub fn crawl_queue(db: &DB) -> (r: Vec<SegOfs>)
    requires
        db.wf(),
    ensures
        r@ == new_targets(callee_targets(db.functions@), db.functions@),
{
    let ghost fs = db.functions@;
    let mut ts: Vec<SegOfs> = Vec::new();
    let mut i: usize = 0;
    assert(fs.take(0) =~= Seq::<Function>::empty());
    while i < db.functions.len()
        invariant
            fs == db.functions@,
            i <= fs.len(),
            ts@ == callee_targets(fs.take(i as int)),
        decreases fs.len() - i,
    {
        assert(fs.take(i + 1).drop_last() =~= fs.take(i as int));
        assert(fs.take(i + 1).last() == fs[i as int]);
        match &db.functions[i].callees {
            Some(c) => {
                push_outside_targets(&mut ts, c);
            },
            None => {
                assert(ts@ =~= ts@ + Seq::<SegOfs>::empty());
            },
        }
        i += 1;
    }
    assert(fs.take(i as int) =~= fs);
    let ghost tv = ts@;
    let mut q: Vec<SegOfs> = Vec::new();
    let mut k: usize = 0;
    assert(tv.take(0) =~= Seq::<SegOfs>::empty());
    while k < ts.len()
        invariant
            fs == db.functions@,
            db.wf(),
            tv == ts@,
            k <= tv.len(),
            q@ == new_targets(tv.take(k as int), fs),
        decreases tv.len() - k,
    {
        assert(tv.take(k + 1).drop_last() =~= tv.take(k as int));
        assert(tv.take(k + 1).last() == tv[k as int]);
        let t = ts[k];
        let known = match db.find_function(t) {
            Some(_) => true,
            None => false,
        };
        if !known && !contains_addr(&q, t) {
            q.push(t);
        }
        k += 1;
    }
    assert(tv.take(k as int) =~= tv);
    q
}

/// The addresses to visit are callees of known functions, none of them a
/// function the database has, and none listed twice.
pub proof fn lemma_new_targets_fresh(ts: Seq<SegOfs>, fs: Seq<Function>)
    ensures
        forall|k: int| 0 <= k < new_targets(ts, fs).len() ==> ts.contains(#[trigger] new_targets(ts, fs)[k]),
        forall|k: int| 0 <= k < new_targets(ts, fs).len() ==> !has_function(fs, #[trigger] new_targets(ts, fs)[k]),
        forall|x: int, y: int|
            0 <= x < y < new_targets(ts, fs).len() ==> new_targets(ts, fs)[x] != new_targets(ts, fs)[y],
    decreases ts.len(),
{
    if ts.len() > 0 {
        let dl = ts.drop_last();
        lemma_new_targets_fresh(dl, fs);
        let q = new_targets(dl, fs);
        assert forall|k: int| 0 <= k < q.len() implies ts.contains(#[trigger] q[k]) by {
            let j = choose|j: int| 0 <= j < dl.len() && dl[j] == q[k];
            assert(ts[j] == q[k]);
        }
        assert(ts[ts.len() - 1] == ts.last());
        if !(has_function(fs, ts.last()) || q.contains(ts.last())) {
            let r = q.push(ts.last());
            assert forall|x: int, y: int| 0 <= x < y < r.len() implies r[x] != r[y] by {
                if y == r.len() - 1 {
                    assert(r[x] == q[x]);
                    if r[x] == r[y] {
                        assert(q.contains(ts.last()));
                    }
                }
            }
        }
    }
}

} // verus!
