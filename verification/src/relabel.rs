//! Canonical relabeling: offset indexing, usage collection, and rewriting.

use std::collections::{HashMap, HashSet};
use vstd::prelude::*;

use crate::instr::{
    body_ref_stream, label_operands, param_ref_stream, ref_stream, Instr, InstrV, Param, ParamV,
};
use crate::label::{Id, Label, LabelV};

verus! {

broadcast use vstd::std_specs::hash::group_hash_axioms, vstd::seq_lib::group_seq_properties;

/// The internal-invariant violations this pass can uncover.  All are compiler
/// defects of earlier phases, never user input errors, and abort relabeling of
/// the current function.
#[derive(Debug, PartialEq, Eq, Clone, Copy)]
pub enum RelabelError {
    /// A label still carries a textual identity at this stage.
    UnresolvedLabel,
    /// A label operand's identity has no definition in this body.
    UndefinedReference,
    /// A canonical id is missing during rewrite.
    InconsistentRewrite,
}

/// Whether every label definition of the body already carries a numeric
/// identity.  An earlier pass must have numbered all textual labels.
pub open spec fn defs_resolved(body: Seq<InstrV>) -> bool {
    forall|j: int|
        0 <= j < body.len() ==> (#[trigger] body[j] matches InstrV::LabelDef(l) ==> l is Regular)
}

/// One left-to-right scan of the body, returning the count of non-definition
/// instructions seen and the map from each defined label identity to the
/// sequential position its definition denotes.  A definition denotes the
/// position of the next real instruction and does not itself count; a later
/// definition of the same identity overwrites the earlier entry.
pub open spec fn def_scan(body: Seq<InstrV>) -> (int, Map<Id, int>)
    decreases body.len(),
{
    if body.len() == 0 {
        (0, Map::empty())
    } else {
        let prev = def_scan(body.drop_last());
        match body.last() {
            InstrV::LabelDef(l) => match l {
                LabelV::Regular(id) => (prev.0, prev.1.insert(id, prev.0)),
                LabelV::Named(_) => prev,
            },
            _ => (prev.0 + 1, prev.1),
        }
    }
}

/// The definition map of a body: label identity to sequential position.
pub open spec fn label_defs(body: Seq<InstrV>) -> Map<Id, int> {
    def_scan(body).1
}

/// View of an identity-to-position map as a mathematical map.
pub open spec fn defs_as_int(m: Map<Id, usize>) -> Map<Id, int> {
    m.map_values(|v: usize| v as int)
}

/// Builds the definition map of `body`: each label definition's identity,
/// mapped to the count of non-definition instructions preceding it.  Fails
/// with `UnresolvedLabel` on the first definition whose label is still
/// textual.
pub fn create_label_to_offset_map(body: &Vec<Instr>) -> (r: Result<
    HashMap<Id, usize>,
    RelabelError,
>)
    ensures
        r matches Ok(m) ==> defs_as_int(m@) == label_defs(body.deep_view()),
        r is Ok <==> defs_resolved(body.deep_view()),
        r matches Err(e) ==> e == RelabelError::UnresolvedLabel,
{
    let ghost bv = body.deep_view();
    let mut m: HashMap<Id, usize> = HashMap::new();
    let mut pos: usize = 0;
    let mut j: usize = 0;
    proof {
        assert(bv.take(0) =~= Seq::<InstrV>::empty());
        assert(defs_as_int(m@) =~= def_scan(bv.take(0)).1);
    }
    while j < body.len()
        invariant
            j <= body.len(),
            pos <= j,
            bv == body.deep_view(),
            bv.len() == body@.len(),
            def_scan(bv.take(j as int)).0 == pos as int,
            defs_as_int(m@) == def_scan(bv.take(j as int)).1,
            defs_resolved(bv.take(j as int)),
        decreases body.len() - j,
    {
        let ghost prefix = bv.take(j as int);
        match &body[j] {
            Instr::LabelDef(l) => match l {
                Label::Regular(id) => {
                    m.insert(*id, pos);
                    proof {
                        assert(bv[j as int] == InstrV::LabelDef(LabelV::Regular(*id)));
                        assert(prefix.push(bv[j as int]).drop_last() =~= prefix);
                        assert(prefix.push(bv[j as int]).last() == bv[j as int]);
                        assert(defs_as_int(m@) =~= prefix_step(prefix, bv[j as int]).1);
                    }
                },
                Label::Named(_) => {
                    proof {
                        assert(bv[j as int] matches InstrV::LabelDef(nl) && nl is Named);
                        assert(!defs_resolved(bv));
                    }
                    return Err(RelabelError::UnresolvedLabel);
                },
            },
            _ => {
                pos = pos + 1;
            },
        }
        j = j + 1;
        proof {
            assert(bv.take(j as int).drop_last() =~= prefix);
            assert(bv.take(j as int).last() == bv[j - 1]);
            assert forall|j2: int| 0 <= j2 < j implies (#[trigger] bv.take(j as int)[j2] matches
                InstrV::LabelDef(l) ==> l is Regular) by {
                if j2 < j - 1 {
                    assert(prefix[j2] == bv.take(j as int)[j2]);
                }
            }
        }
    }
    proof {
        assert(bv.take(j as int) =~= bv);
    }
    Ok(m)
}

/// One step of `def_scan`, used to relate a loop iteration to the scan of the
/// extended prefix.
pub open spec fn prefix_step(prefix: Seq<InstrV>, i: InstrV) -> (int, Map<Id, int>) {
    def_scan(prefix.push(i))
}

/// Why a single label operand cannot be processed: still textual, or not
/// defined in this body.
pub open spec fn label_err(defs: Map<Id, int>, l: LabelV) -> Option<RelabelError> {
    match l {
        LabelV::Named(_) => Some(RelabelError::UnresolvedLabel),
        LabelV::Regular(id) => if defs.contains_key(id) {
            None
        } else {
            Some(RelabelError::UndefinedReference)
        },
    }
}

/// The first error hit while processing a reference stream left to right, if
/// any.
pub open spec fn stream_err(defs: Map<Id, int>, s: Seq<LabelV>) -> Option<RelabelError>
    decreases s.len(),
{
    if s.len() == 0 {
        None
    } else if stream_err(defs, s.drop_last()) is Some {
        stream_err(defs, s.drop_last())
    } else {
        label_err(defs, s.last())
    }
}

/// Collector state: the next canonical id to hand out, the set of referenced
/// label identities, and the definition-position to canonical-id map.
pub open spec fn collect_step(defs: Map<Id, int>, st: (int, Set<Id>, Map<int, int>), l: LabelV) -> (
    int,
    Set<Id>,
    Map<int, int>,
) {
    match l {
        LabelV::Regular(id) => if defs.contains_key(id) && !st.2.contains_key(defs[id]) {
            (st.0 + 1, st.1.insert(id), st.2.insert(defs[id], st.0))
        } else {
            st
        },
        LabelV::Named(_) => st,
    }
}

/// Folds `collect_step` over a reference stream, starting from `st`.
pub open spec fn collect_scan_from(
    defs: Map<Id, int>,
    st: (int, Set<Id>, Map<int, int>),
    s: Seq<LabelV>,
) -> (int, Set<Id>, Map<int, int>)
    decreases s.len(),
{
    if s.len() == 0 {
        st
    } else {
        collect_step(defs, collect_scan_from(defs, st, s.drop_last()), s.last())
    }
}

/// The collector's result on a whole reference stream: each definition
/// position referenced, in first-use order, receives the next dense canonical
/// id starting at 0.
pub open spec fn collect_scan(defs: Map<Id, int>, s: Seq<LabelV>) -> (int, Set<Id>, Map<int, int>) {
    collect_scan_from(defs, (0, Set::empty(), Map::empty()), s)
}

/// View of a position-to-canonical-id map as a mathematical map.
pub open spec fn refs_as_int(m: Map<usize, usize>) -> Map<int, int> {
    Map::new(
        |k: int| 0 <= k <= usize::MAX && m.contains_key(k as usize),
        |k: int| m[k as usize] as int,
    )
}

/// The collector state that a used-set and a canonical map stand for.
pub open spec fn abs_state(used: Set<Id>, refs: Map<usize, usize>) -> (int, Set<Id>, Map<int, int>) {
    (refs.dom().len() as int, used, refs_as_int(refs))
}

/// Folding a stream split in two folds the first part, then the second from
/// where the first left off.
proof fn lemma_scan_from_concat(
    defs: Map<Id, int>,
    st: (int, Set<Id>, Map<int, int>),
    a: Seq<LabelV>,
    b: Seq<LabelV>,
)
    ensures
        collect_scan_from(defs, st, a + b) == collect_scan_from(
            defs,
            collect_scan_from(defs, st, a),
            b,
        ),
    decreases b.len(),
{
    if b.len() == 0 {
        assert(a + b =~= a);
    } else {
        lemma_scan_from_concat(defs, st, a, b.drop_last());
        assert((a + b).drop_last() =~= a + b.drop_last());
        assert((a + b).last() == b.last());
    }
}

/// The first error of a split stream is the first part's error, or else the
/// second part's.
proof fn lemma_stream_err_concat(defs: Map<Id, int>, a: Seq<LabelV>, b: Seq<LabelV>)
    ensures
        stream_err(defs, a + b) == (if stream_err(defs, a) is Some {
            stream_err(defs, a)
        } else {
            stream_err(defs, b)
        }),
    decreases b.len(),
{
    if b.len() == 0 {
        assert(a + b =~= a);
    } else {
        lemma_stream_err_concat(defs, a, b.drop_last());
        assert((a + b).drop_last() =~= a + b.drop_last());
        assert((a + b).last() == b.last());
    }
}

/// A flattened sequence of streams splits at any index.
proof fn lemma_flatten_split<A>(s: Seq<Seq<A>>, j: int)
    requires
        0 <= j <= s.len(),
    ensures
        s.flatten() == s.take(j).flatten() + s.skip(j).flatten(),
{
    vstd::seq_lib::lemma_flatten_concat(s.take(j), s.skip(j));
    assert(s.take(j) + s.skip(j) =~= s);
}

/// Extending a prefix of streams by one appends that stream's elements.
proof fn lemma_flatten_take_succ<A>(s: Seq<Seq<A>>, j: int)
    requires
        0 <= j < s.len(),
    ensures
        s.take(j + 1).flatten() == s.take(j).flatten() + s[j],
    decreases s.len(),
{
    broadcast use vstd::prelude::Seq::lemma_flatten_push;

    assert(s.take(j + 1) =~= s.take(j).push(s[j]));
}

/// Processes one label reference: resolve it through the definition map, and
/// if its definition position has no canonical id yet, hand out the next one
/// and mark the identity used.
fn process_ref(
    defs: &HashMap<Id, usize>,
    used: &mut HashSet<Id>,
    refs: &mut HashMap<usize, usize>,
    l: &Label,
) -> (r: Result<(), RelabelError>)
    ensures
        ({
            let dm = defs_as_int(defs@);
            let lv = l.deep_view();
            &&& r matches Ok(p) ==> abs_state(final(used)@, final(refs)@) == collect_step(
                dm,
                abs_state(old(used)@, old(refs)@),
                lv,
            )
            &&& r matches Err(e) ==> label_err(dm, lv) == Some(e) && final(used)@ == old(used)@
                && final(refs)@ == old(refs)@
            &&& (r is Ok <==> label_err(dm, lv) is None)
        }),
{
    let ghost dm = defs_as_int(defs@);
    let ghost st0 = abs_state(used@, refs@);
    match l {
        Label::Named(_) => Err(RelabelError::UnresolvedLabel),
        Label::Regular(id) => match defs.get(id) {
            None => {
                proof {
                    assert(!dm.contains_key(*id));
                }
                Err(RelabelError::UndefinedReference)
            },
            Some(ix) => {
                let ixv = *ix;
                proof {
                    assert(dm.contains_key(*id) && dm[*id] == ixv as int);
                }
                if !refs.contains_key(&ixv) {
                    let c = refs.len();
                    refs.insert(ixv, c);
                    used.insert(*id);
                    proof {
                        assert(refs@ == old(refs)@.insert(ixv, c));
                        assert(refs@.dom() =~= old(refs)@.dom().insert(ixv));
                        assert(refs_as_int(refs@) =~= refs_as_int(old(refs)@).insert(
                            ixv as int,
                            c as int,
                        ));
                    }
                } else {
                    proof {
                        assert(refs_as_int(refs@).contains_key(ixv as int));
                    }
                }
                Ok(())
            },
        },
    }
}

/// Processes every label operand of one instruction, in enumeration order.
fn process_instr(
    defs: &HashMap<Id, usize>,
    used: &mut HashSet<Id>,
    refs: &mut HashMap<usize, usize>,
    i: &Instr,
) -> (r: Result<(), RelabelError>)
    ensures
        ({
            let dm = defs_as_int(defs@);
            let ops = label_operands(i.deep_view());
            &&& r matches Ok(p) ==> stream_err(dm, ops) is None && abs_state(
                final(used)@,
                final(refs)@,
            ) == collect_scan_from(dm, abs_state(old(used)@, old(refs)@), ops)
            &&& r matches Err(e) ==> stream_err(dm, ops) == Some(e)
            &&& (r is Ok <==> stream_err(dm, ops) is None)
        }),
{
    let ghost dm = defs_as_int(defs@);
    let ghost st0 = abs_state(used@, refs@);
    let ghost ops = label_operands(i.deep_view());
    proof {
        assert(collect_scan_from(dm, st0, Seq::<LabelV>::empty()) == st0);
    }
    match i {
        Instr::Plain(_) => Ok(()),
        Instr::LabelDef(_) => Ok(()),
        Instr::Jmp(l) | Instr::JmpNS(l) | Instr::JmpZ(l) | Instr::JmpNZ(l) | Instr::IterInit(
            _,
            l,
        ) | Instr::IterNext(_, l) | Instr::MemoGet(l) => {
            proof {
                lemma_singleton_stream(dm, st0, l.deep_view());
            }
            process_ref(defs, used, refs, l)
        },
        Instr::Call(ol) => match ol {
            None => Ok(()),
            Some(l) => {
                proof {
                    lemma_singleton_stream(dm, st0, l.deep_view());
                }
                process_ref(defs, used, refs, l)
            },
        },
        Instr::MemoGetEager(l1, l2) => {
            proof {
                assert(ops =~= seq![l1.deep_view(), l2.deep_view()]);
                assert(ops.drop_last() =~= seq![l1.deep_view()]);
                lemma_singleton_stream(dm, st0, l1.deep_view());
            }
            let r1 = process_ref(defs, used, refs, l1);
            if let Err(e) = r1 {
                return Err(e);
            }
            let ghost st1 = abs_state(used@, refs@);
            proof {
                assert(st1 == collect_scan_from(dm, st0, ops.drop_last()));
            }
            let r2 = process_ref(defs, used, refs, l2);
            if let Err(e) = r2 {
                return Err(e);
            }
            Ok(())
        },
        Instr::Switch(ls) => {
            let ghost lsv = ls.deep_view();
            proof {
                assert(ops == lsv);
                assert(lsv.take(0) =~= Seq::<LabelV>::empty());
            }
            let mut k: usize = 0;
            while k < ls.len()
                invariant
                    k <= ls.len(),
                    lsv == ls.deep_view(),
                    lsv.len() == ls@.len(),
                    label_operands(i.deep_view()) == lsv,
                    dm == defs_as_int(defs@),
                    abs_state(used@, refs@) == collect_scan_from(dm, st0, lsv.take(k as int)),
                    stream_err(dm, lsv.take(k as int)) is None,
                decreases ls.len() - k,
            {
                proof {
                    assert(lsv.take(k + 1).drop_last() =~= lsv.take(k as int));
                    assert(lsv.take(k + 1).last() == lsv[k as int]);
                }
                let r = process_ref(defs, used, refs, &ls[k]);
                if let Err(e) = r {
                    proof {
                        assert(stream_err(dm, lsv.take(k + 1)) == Some(e));
                        lemma_stream_err_concat(dm, lsv.take(k + 1), lsv.skip(k + 1));
                        assert(lsv.take(k + 1) + lsv.skip(k + 1) =~= lsv);
                    }
                    return Err(e);
                }
                k = k + 1;
            }
            proof {
                assert(lsv.take(k as int) =~= lsv);
            }
            Ok(())
        },
        Instr::SSwitch(ps) => {
            let ghost psv = ps.deep_view();
            let ghost opsv = psv.map_values(|p: (Seq<char>, LabelV)| p.1);
            proof {
                assert(ops == opsv);
                assert(opsv.take(0) =~= Seq::<LabelV>::empty());
            }
            let mut k: usize = 0;
            while k < ps.len()
                invariant
                    k <= ps.len(),
                    psv == ps.deep_view(),
                    opsv == psv.map_values(|p: (Seq<char>, LabelV)| p.1),
                    psv.len() == ps@.len(),
                    label_operands(i.deep_view()) == opsv,
                    dm == defs_as_int(defs@),
                    abs_state(used@, refs@) == collect_scan_from(dm, st0, opsv.take(k as int)),
                    stream_err(dm, opsv.take(k as int)) is None,
                decreases ps.len() - k,
            {
                proof {
                    assert(opsv.take(k + 1).drop_last() =~= opsv.take(k as int));
                    assert(opsv.take(k + 1).last() == opsv[k as int]);
                    assert(opsv[k as int] == ps@[k as int].1.deep_view());
                }
                let r = process_ref(defs, used, refs, &ps[k].1);
                if let Err(e) = r {
                    proof {
                        assert(stream_err(dm, opsv.take(k + 1)) == Some(e));
                        lemma_stream_err_concat(dm, opsv.take(k + 1), opsv.skip(k + 1));
                        assert(opsv.take(k + 1) + opsv.skip(k + 1) =~= opsv);
                    }
                    return Err(e);
                }
                k = k + 1;
            }
            proof {
                assert(opsv.take(k as int) =~= opsv);
            }
            Ok(())
        },
    }
}

/// Scans the whole reference stream — every label operand of the body in
/// traversal order, then every parameter default-value target — and returns
/// the set of referenced label identities together with the map from each
/// referenced definition position to its dense canonical id, assigned in
/// first-use order starting at 0.  Fails on the first operand that is still
/// textual (`UnresolvedLabel`) or has no definition (`UndefinedReference`).
pub fn create_label_ref_map(
    defs: &HashMap<Id, usize>,
    params: &Vec<Param>,
    body: &Vec<Instr>,
) -> (r: Result<(HashSet<Id>, HashMap<usize, usize>), RelabelError>)
    ensures
        ({
            let dm = defs_as_int(defs@);
            let stream = ref_stream(params.deep_view(), body.deep_view());
            &&& r matches Ok(p) ==> abs_state(p.0@, p.1@) == collect_scan(dm, stream)
            &&& r matches Err(e) ==> stream_err(dm, stream) == Some(e)
            &&& (r is Ok <==> stream_err(dm, stream) is None)
        }),
{
    let ghost dm = defs_as_int(defs@);
    let ghost bv = body.deep_view();
    let ghost pv = params.deep_view();
    let ghost bstreams = bv.map_values(|iv: InstrV| label_operands(iv));
    let ghost init: (int, Set<Id>, Map<int, int>) = (0, Set::empty(), Map::empty());
    let mut used: HashSet<Id> = HashSet::new();
    let mut refs: HashMap<usize, usize> = HashMap::new();
    proof {
        assert(refs@.dom() =~= Set::<usize>::empty());
        assert(refs_as_int(refs@) =~= Map::<int, int>::empty());
        assert(abs_state(used@, refs@) == init);
        assert(bstreams.take(0) =~= Seq::<Seq<LabelV>>::empty());
        assert(bstreams.take(0).flatten() =~= Seq::<LabelV>::empty());
    }
    let mut j: usize = 0;
    while j < body.len()
        invariant
            j <= body.len(),
            bv == body.deep_view(),
            bv.len() == body@.len(),
            pv == params.deep_view(),
            bstreams == bv.map_values(|iv: InstrV| label_operands(iv)),
            dm == defs_as_int(defs@),
            init == (0int, Set::<Id>::empty(), Map::<int, int>::empty()),
            abs_state(used@, refs@) == collect_scan_from(dm, init, bstreams.take(j as int).flatten()),
            stream_err(dm, bstreams.take(j as int).flatten()) is None,
        decreases body.len() - j,
    {
        let ghost done = bstreams.take(j as int).flatten();
        let ghost ops = label_operands(bv[j as int]);
        let r = process_instr(defs, &mut used, &mut refs, &body[j]);
        proof {
            lemma_flatten_take_succ(bstreams, j as int);
            lemma_scan_from_concat(dm, init, done, ops);
            lemma_stream_err_concat(dm, done, ops);
        }
        if let Err(e) = r {
            proof {
                lemma_flatten_split(bstreams, j + 1);
                lemma_stream_err_concat(dm, bstreams.take(j + 1).flatten(), bstreams.skip(
                    j + 1,
                ).flatten());
                assert(stream_err(dm, body_ref_stream(bv)) == Some(e));
                lemma_stream_err_concat(dm, body_ref_stream(bv), param_ref_stream(pv));
            }
            return Err(e);
        }
        j = j + 1;
    }
    proof {
        assert(bstreams.take(j as int) =~= bstreams);
    }
    let ghost pstreams = pv.map_values(
        |p: ParamV|
            match p.default_value {
                Some(l) => seq![l],
                None => Seq::<LabelV>::empty(),
            },
    );
    let ghost bdone = body_ref_stream(bv);
    proof {
        assert(pstreams.take(0) =~= Seq::<Seq<LabelV>>::empty());
        assert(pstreams.take(0).flatten() =~= Seq::<LabelV>::empty());
        lemma_scan_from_concat(dm, init, bdone, pstreams.take(0).flatten());
        assert(bdone + pstreams.take(0).flatten() =~= bdone);
    }
    let mut k: usize = 0;
    while k < params.len()
        invariant
            k <= params.len(),
            pv == params.deep_view(),
            pv.len() == params@.len(),
            bv == body.deep_view(),
            pstreams == pv.map_values(
                |p: ParamV|
                    match p.default_value {
                        Some(l) => seq![l],
                        None => Seq::<LabelV>::empty(),
                    },
            ),
            bdone == body_ref_stream(bv),
            dm == defs_as_int(defs@),
            init == (0int, Set::<Id>::empty(), Map::<int, int>::empty()),
            abs_state(used@, refs@) == collect_scan_from(
                dm,
                init,
                bdone + pstreams.take(k as int).flatten(),
            ),
            stream_err(dm, bdone + pstreams.take(k as int).flatten()) is None,
        decreases params.len() - k,
    {
        let ghost done = bdone + pstreams.take(k as int).flatten();
        let ghost pops = pstreams[k as int];
        proof {
            lemma_flatten_take_succ(pstreams, k as int);
            lemma_scan_from_concat(dm, init, done, pops);
            lemma_stream_err_concat(dm, done, pops);
            assert(bdone + pstreams.take(k + 1).flatten() =~= done + pops);
        }
        match &params[k].default_value {
            None => {
                proof {
                    assert(pops =~= Seq::<LabelV>::empty());
                    assert(done + pops =~= done);
                }
            },
            Some(l) => {
                proof {
                    assert(pops =~= seq![l.deep_view()]);
                    lemma_singleton_stream(dm, collect_scan_from(dm, init, done), l.deep_view());
                }
                let r = process_ref(defs, &mut used, &mut refs, l);
                if let Err(e) = r {
                    proof {
                        assert(stream_err(dm, done + pops) == Some(e));
                        lemma_flatten_split(pstreams, k + 1);
                        lemma_stream_err_concat(dm, done + pops, pstreams.skip(k + 1).flatten());
                        assert((done + pops) + pstreams.skip(k + 1).flatten() =~= ref_stream(
                            pv,
                            bv,
                        ));
                    }
                    return Err(e);
                }
            },
        }
        k = k + 1;
    }
    proof {
        assert(pstreams.take(k as int) =~= pstreams);
        assert(bdone + pstreams.flatten() =~= ref_stream(pv, bv));
    }
    Ok((used, refs))
}

/// A label reference can be rewritten: it is numeric, defined, and its
/// definition position has a canonical id.
pub open spec fn label_rw_ok(dm: Map<Id, int>, rm: Map<int, int>, l: LabelV) -> bool {
    &&& l is Regular
    &&& dm.contains_key(l.id())
    &&& rm.contains_key(dm[l.id()])
}

/// The canonical form of a label reference: the canonical id of the position
/// its identity resolves to.
pub open spec fn rw_label(dm: Map<Id, int>, rm: Map<int, int>, l: LabelV) -> LabelV
    recommends
        label_rw_ok(dm, rm, l),
{
    LabelV::Regular(rm[dm[l.id()]] as usize)
}

/// An instruction with every label operand rewritten to its canonical id.
/// A label definition's own identity is rewritten here too.
pub open spec fn rw_instr(dm: Map<Id, int>, rm: Map<int, int>, i: InstrV) -> InstrV {
    match i {
        InstrV::Plain(x) => InstrV::Plain(x),
        InstrV::LabelDef(l) => InstrV::LabelDef(rw_label(dm, rm, l)),
        InstrV::Jmp(l) => InstrV::Jmp(rw_label(dm, rm, l)),
        InstrV::JmpNS(l) => InstrV::JmpNS(rw_label(dm, rm, l)),
        InstrV::JmpZ(l) => InstrV::JmpZ(rw_label(dm, rm, l)),
        InstrV::JmpNZ(l) => InstrV::JmpNZ(rw_label(dm, rm, l)),
        InstrV::IterInit(it, l) => InstrV::IterInit(it, rw_label(dm, rm, l)),
        InstrV::IterNext(it, l) => InstrV::IterNext(it, rw_label(dm, rm, l)),
        InstrV::MemoGet(l) => InstrV::MemoGet(rw_label(dm, rm, l)),
        InstrV::MemoGetEager(l1, l2) => InstrV::MemoGetEager(
            rw_label(dm, rm, l1),
            rw_label(dm, rm, l2),
        ),
        InstrV::Call(ol) => InstrV::Call(
            match ol {
                Some(l) => Some(rw_label(dm, rm, l)),
                None => None,
            },
        ),
        InstrV::Switch(ls) => InstrV::Switch(ls.map_values(|l: LabelV| rw_label(dm, rm, l))),
        InstrV::SSwitch(ps) => InstrV::SSwitch(
            ps.map_values(|p: (Seq<char>, LabelV)| (p.0, rw_label(dm, rm, p.1))),
        ),
    }
}

/// Whether an instruction survives rewriting: label definitions survive only
/// if their identity is referenced; everything else survives.
pub open spec fn keep_instr(used: Set<Id>, i: InstrV) -> bool {
    match i {
        InstrV::LabelDef(l) => l is Regular && used.contains(l.id()),
        _ => true,
    }
}

/// What becomes of one instruction: dropped, or kept in rewritten form.
pub open spec fn rw_entry(dm: Map<Id, int>, used: Set<Id>, rm: Map<int, int>, i: InstrV) -> Option<
    InstrV,
> {
    if keep_instr(used, i) {
        Some(rw_instr(dm, rm, i))
    } else {
        None
    }
}

/// The rewritten body: unreferenced label definitions deleted, every other
/// instruction kept in order with its labels rewritten to canonical ids.
pub open spec fn rewrite_body(
    dm: Map<Id, int>,
    used: Set<Id>,
    rm: Map<int, int>,
    body: Seq<InstrV>,
) -> Seq<InstrV> {
    body.filter_map(|i: InstrV| rw_entry(dm, used, rm, i))
}

/// A parameter with its default-value jump target rewritten.
pub open spec fn rw_param(dm: Map<Id, int>, rm: Map<int, int>, p: ParamV) -> ParamV {
    ParamV {
        name: p.name,
        default_value: match p.default_value {
            Some(l) => Some(rw_label(dm, rm, l)),
            None => None,
        },
    }
}

/// The rewritten parameter list, in declaration order.
pub open spec fn rewrite_params(dm: Map<Id, int>, rm: Map<int, int>, params: Seq<ParamV>) -> Seq<
    ParamV,
> {
    params.map_values(|p: ParamV| rw_param(dm, rm, p))
}

/// Every label operand of an instruction can be rewritten.
pub open spec fn instr_rw_ok(dm: Map<Id, int>, rm: Map<int, int>, i: InstrV) -> bool {
    forall|k: int|
        0 <= k < label_operands(i).len() ==> label_rw_ok(dm, rm, #[trigger] label_operands(i)[k])
}

/// A label definition can be rewritten or deleted: its identity is numeric
/// and defined, and if referenced it has a canonical id.
pub open spec fn def_rw_ok(dm: Map<Id, int>, used: Set<Id>, rm: Map<int, int>, i: InstrV) -> bool {
    i matches InstrV::LabelDef(l) ==> {
        &&& l is Regular
        &&& dm.contains_key(l.id())
        &&& (used.contains(l.id()) ==> rm.contains_key(dm[l.id()]))
    }
}

/// A parameter's default-value target, if any, can be rewritten.
pub open spec fn param_rw_ok(dm: Map<Id, int>, rm: Map<int, int>, p: ParamV) -> bool {
    p.default_value matches Some(l) ==> label_rw_ok(dm, rm, l)
}

/// The collector's outputs are consistent with the function being rewritten:
/// every reference and definition resolves as the rewriter requires.  The
/// collector establishes this on every function it accepts; rewriting under
/// anything weaker would be the pass-ordering defect `InconsistentRewrite`
/// stands for.
pub open spec fn rw_ok(
    dm: Map<Id, int>,
    used: Set<Id>,
    rm: Map<int, int>,
    params: Seq<ParamV>,
    body: Seq<InstrV>,
) -> bool {
    &&& forall|j: int|
        0 <= j < body.len() ==> instr_rw_ok(dm, rm, #[trigger] body[j]) && def_rw_ok(
            dm,
            used,
            rm,
            body[j],
        )
    &&& forall|j: int| 0 <= j < params.len() ==> param_rw_ok(dm, rm, #[trigger] params[j])
}

/// Rewrites one label reference to its canonical id.
fn rw_label_exec(defs: &HashMap<Id, usize>, refs: &HashMap<usize, usize>, l: &Label) -> (r: Label)
    requires
        label_rw_ok(defs_as_int(defs@), refs_as_int(refs@), l.deep_view()),
    ensures
        r.deep_view() == rw_label(defs_as_int(defs@), refs_as_int(refs@), l.deep_view()),
{
    match l {
        Label::Regular(id) => {
            let ix: usize = match defs.get(id) {
                Some(ix) => *ix,
                None => vstd::pervasive::unreached(),
            };
            let c: usize = match refs.get(&ix) {
                Some(c) => *c,
                None => vstd::pervasive::unreached(),
            };
            Label::Regular(c)
        },
        Label::Named(_) => vstd::pervasive::unreached(),
    }
}

/// Rewrites every label operand of one non-definition instruction.
fn rw_instr_exec(defs: &HashMap<Id, usize>, refs: &HashMap<usize, usize>, i: &Instr) -> (r: Instr)
    requires
        !(i.deep_view() is LabelDef),
        instr_rw_ok(defs_as_int(defs@), refs_as_int(refs@), i.deep_view()),
    ensures
        r.deep_view() == rw_instr(defs_as_int(defs@), refs_as_int(refs@), i.deep_view()),
{
    let ghost dm = defs_as_int(defs@);
    let ghost rm = refs_as_int(refs@);
    let ghost iv = i.deep_view();
    match i {
        Instr::Plain(x) => Instr::Plain(*x),
        Instr::LabelDef(_) => vstd::pervasive::unreached(),
        Instr::Jmp(l) => {
            proof {
                assert(label_operands(iv) =~= seq![l.deep_view()]);
                assert(label_rw_ok(dm, rm, label_operands(iv)[0]));
            }
            Instr::Jmp(rw_label_exec(defs, refs, l))
        },
        Instr::JmpNS(l) => {
            proof {
                assert(label_operands(iv) =~= seq![l.deep_view()]);
                assert(label_rw_ok(dm, rm, label_operands(iv)[0]));
            }
            Instr::JmpNS(rw_label_exec(defs, refs, l))
        },
        Instr::JmpZ(l) => {
            proof {
                assert(label_operands(iv) =~= seq![l.deep_view()]);
                assert(label_rw_ok(dm, rm, label_operands(iv)[0]));
            }
            Instr::JmpZ(rw_label_exec(defs, refs, l))
        },
        Instr::JmpNZ(l) => {
            proof {
                assert(label_operands(iv) =~= seq![l.deep_view()]);
                assert(label_rw_ok(dm, rm, label_operands(iv)[0]));
            }
            Instr::JmpNZ(rw_label_exec(defs, refs, l))
        },
        Instr::IterInit(it, l) => {
            proof {
                assert(label_operands(iv) =~= seq![l.deep_view()]);
                assert(label_rw_ok(dm, rm, label_operands(iv)[0]));
            }
            Instr::IterInit(*it, rw_label_exec(defs, refs, l))
        },
        Instr::IterNext(it, l) => {
            proof {
                assert(label_operands(iv) =~= seq![l.deep_view()]);
                assert(label_rw_ok(dm, rm, label_operands(iv)[0]));
            }
            Instr::IterNext(*it, rw_label_exec(defs, refs, l))
        },
        Instr::MemoGet(l) => {
            proof {
                assert(label_operands(iv) =~= seq![l.deep_view()]);
                assert(label_rw_ok(dm, rm, label_operands(iv)[0]));
            }
            Instr::MemoGet(rw_label_exec(defs, refs, l))
        },
        Instr::MemoGetEager(l1, l2) => {
            proof {
                assert(label_operands(iv) =~= seq![l1.deep_view(), l2.deep_view()]);
                assert(label_rw_ok(dm, rm, label_operands(iv)[0]));
                assert(label_rw_ok(dm, rm, label_operands(iv)[1]));
            }
            Instr::MemoGetEager(rw_label_exec(defs, refs, l1), rw_label_exec(defs, refs, l2))
        },
        Instr::Call(ol) => match ol {
            None => Instr::Call(None),
            Some(l) => {
                proof {
                    assert(label_operands(iv) =~= seq![l.deep_view()]);
                    assert(label_rw_ok(dm, rm, label_operands(iv)[0]));
                }
                Instr::Call(Some(rw_label_exec(defs, refs, l)))
            },
        },
        Instr::Switch(ls) => {
            let ghost lsv = ls.deep_view();
            let mut out: Vec<Label> = Vec::new();
            let mut k: usize = 0;
            proof {
                assert(out.deep_view() =~= lsv.take(0).map_values(|l: LabelV| rw_label(dm, rm, l)));
            }
            while k < ls.len()
                invariant
                    k <= ls.len(),
                    lsv == ls.deep_view(),
                    lsv.len() == ls@.len(),
                    label_operands(i.deep_view()) == lsv,
                    instr_rw_ok(dm, rm, i.deep_view()),
                    dm == defs_as_int(defs@),
                    rm == refs_as_int(refs@),
                    out.deep_view() == lsv.take(k as int).map_values(
                        |l: LabelV| rw_label(dm, rm, l),
                    ),
                decreases ls.len() - k,
            {
                proof {
                    assert(label_operands(i.deep_view())[k as int] == lsv[k as int]);
                    assert(label_rw_ok(dm, rm, label_operands(i.deep_view())[k as int]));
                    assert(lsv[k as int] == ls@[k as int].deep_view());
                }
                let nl = rw_label_exec(defs, refs, &ls[k]);
                proof {
                    assert(nl.deep_view() == rw_label(dm, rm, lsv[k as int]));
                }
                let ghost pre = out.deep_view();
                out.push(nl);
                k = k + 1;
                proof {
                    assert(out@.len() == pre.len() + 1);
                    assert(out.deep_view().len() == k as int);
                    assert(forall|j: int| 0 <= j < k - 1 ==> #[trigger] out.deep_view()[j] == pre[j]);
                    assert(out.deep_view() =~= lsv.take(k as int).map_values(
                        |l: LabelV| rw_label(dm, rm, l),
                    ));
                }
            }
            let r = Instr::Switch(out);
            proof {
                assert(lsv.take(k as int) =~= lsv);
                assert(r.deep_view() =~= rw_instr(dm, rm, iv));
            }
            r
        },
        Instr::SSwitch(ps) => {
            let ghost psv = ps.deep_view();
            let mut out: Vec<(String, Label)> = Vec::new();
            let mut k: usize = 0;
            proof {
                assert(out.deep_view() =~= psv.take(0).map_values(
                    |p: (Seq<char>, LabelV)| (p.0, rw_label(dm, rm, p.1)),
                ));
            }
            while k < ps.len()
                invariant
                    k <= ps.len(),
                    psv == ps.deep_view(),
                    psv.len() == ps@.len(),
                    label_operands(i.deep_view()) == psv.map_values(|p: (Seq<char>, LabelV)| p.1),
                    instr_rw_ok(dm, rm, i.deep_view()),
                    dm == defs_as_int(defs@),
                    rm == refs_as_int(refs@),
                    out.deep_view() == psv.take(k as int).map_values(
                        |p: (Seq<char>, LabelV)| (p.0, rw_label(dm, rm, p.1)),
                    ),
                decreases ps.len() - k,
            {
                proof {
                    assert(label_operands(i.deep_view())[k as int] == psv[k as int].1);
                    assert(label_rw_ok(dm, rm, label_operands(i.deep_view())[k as int]));
                    assert(psv[k as int] == ps@[k as int].deep_view());
                    assert(psv[k as int].1 == ps@[k as int].1.deep_view());
                }
                let name = ps[k].0.clone();
                let lab = rw_label_exec(defs, refs, &ps[k].1);
                proof {
                    assert(lab.deep_view() == rw_label(dm, rm, psv[k as int].1));
                    assert(name@ == psv[k as int].0);
                }
                let ghost pre = out.deep_view();
                out.push((name, lab));
                k = k + 1;
                proof {
                    assert(out@.len() == pre.len() + 1);
                    assert(out.deep_view().len() == k as int);
                    assert(forall|j: int| 0 <= j < k - 1 ==> #[trigger] out.deep_view()[j] == pre[j]);
                    assert(out.deep_view()[k - 1] == (psv[k - 1].0, rw_label(dm, rm, psv[k - 1].1)));
                    assert(out.deep_view() =~= psv.take(k as int).map_values(
                        |p: (Seq<char>, LabelV)| (p.0, rw_label(dm, rm, p.1)),
                    ));
                }
            }
            let r = Instr::SSwitch(out);
            proof {
                assert(psv.take(k as int) =~= psv);
                assert(r.deep_view() =~= rw_instr(dm, rm, iv));
            }
            r
        },
    }
}

/// Applies the canonical mapping in place: referenced label definitions are
/// renumbered, unreferenced ones are deleted, and every reference — in the
/// body and in parameter defaults — is rewritten to its canonical id.
pub fn rewrite_params_and_body(
    defs: &HashMap<Id, usize>,
    used: &HashSet<Id>,
    refs: &HashMap<usize, usize>,
    params: &mut Vec<Param>,
    body: &mut Vec<Instr>,
)
    requires
        rw_ok(
            defs_as_int(defs@),
            used@,
            refs_as_int(refs@),
            old(params).deep_view(),
            old(body).deep_view(),
        ),
    ensures
        final(params).deep_view() == rewrite_params(
            defs_as_int(defs@),
            refs_as_int(refs@),
            old(params).deep_view(),
        ),
        final(body).deep_view() == rewrite_body(
            defs_as_int(defs@),
            used@,
            refs_as_int(refs@),
            old(body).deep_view(),
        ),
{
    let ghost dm = defs_as_int(defs@);
    let ghost rm = refs_as_int(refs@);
    let ghost uv = used@;
    let ghost bv = old(body).deep_view();
    let ghost pv = old(params).deep_view();
    let ghost entry = |i: InstrV| rw_entry(dm, uv, rm, i);

    let mut out_p: Vec<Param> = Vec::new();
    let mut k: usize = 0;
    proof {
        assert(out_p.deep_view() =~= pv.take(0).map_values(|p: ParamV| rw_param(dm, rm, p)));
    }
    while k < params.len()
        invariant
            k <= params.len(),
            pv == params.deep_view(),
            pv.len() == params@.len(),
            dm == defs_as_int(defs@),
            rm == refs_as_int(refs@),
            forall|j: int| 0 <= j < pv.len() ==> param_rw_ok(dm, rm, #[trigger] pv[j]),
            out_p.deep_view() == pv.take(k as int).map_values(|p: ParamV| rw_param(dm, rm, p)),
        decreases params.len() - k,
    {
        proof {
            assert(param_rw_ok(dm, rm, pv[k as int]));
            assert(pv[k as int] == params@[k as int].deep_view());
        }
        let name = params[k].name.clone();
        let default_value = match &params[k].default_value {
            None => None,
            Some(l) => Some(rw_label_exec(defs, refs, l)),
        };
        let np = Param { name, default_value };
        proof {
            assert(np.deep_view() == rw_param(dm, rm, pv[k as int]));
        }
        let ghost pre = out_p.deep_view();
        out_p.push(np);
        k = k + 1;
        proof {
            assert(out_p@.len() == pre.len() + 1);
            assert(out_p.deep_view().len() == k as int);
            assert(forall|j: int| 0 <= j < k - 1 ==> #[trigger] out_p.deep_view()[j] == pre[j]);
            assert(out_p.deep_view() =~= pv.take(k as int).map_values(
                |p: ParamV| rw_param(dm, rm, p),
            ));
        }
    }
    proof {
        assert(pv.take(k as int) =~= pv);
    }

    let mut out: Vec<Instr> = Vec::new();
    let mut j: usize = 0;
    proof {
        assert(out.deep_view() =~= bv.take(0).filter_map(entry));
    }
    while j < body.len()
        invariant
            j <= body.len(),
            bv == body.deep_view(),
            bv.len() == body@.len(),
            dm == defs_as_int(defs@),
            rm == refs_as_int(refs@),
            uv == used@,
            entry == (|i: InstrV| rw_entry(dm, uv, rm, i)),
            forall|j2: int|
                0 <= j2 < bv.len() ==> instr_rw_ok(dm, rm, #[trigger] bv[j2]) && def_rw_ok(
                    dm,
                    uv,
                    rm,
                    bv[j2],
                ),
            out.deep_view() == bv.take(j as int).filter_map(entry),
        decreases body.len() - j,
    {
        let ghost iv = bv[j as int];
        match &body[j] {
            Instr::LabelDef(l) => match l {
                Label::Regular(id) => {
                    if used.contains(id) {
                        let ix: usize = match defs.get(id) {
                            Some(ix) => *ix,
                            None => vstd::pervasive::unreached(),
                        };
                        let c: usize = match refs.get(&ix) {
                            Some(c) => *c,
                            None => vstd::pervasive::unreached(),
                        };
                        out.push(Instr::LabelDef(Label::Regular(c)));
                        proof {
                            assert(entry(iv) == Some(
                                InstrV::LabelDef(LabelV::Regular(rm[dm[*id]] as usize)),
                            ));
                        }
                    } else {
                        proof {
                            assert(entry(iv) is None);
                        }
                    }
                },
                Label::Named(_) => {
                    proof {
                        assert(def_rw_ok(dm, uv, rm, iv));
                        assert(false);
                    }
                },
            },
            _ => {
                let ri = rw_instr_exec(defs, refs, &body[j]);
                out.push(ri);
                proof {
                    assert(entry(iv) == Some(rw_instr(dm, rm, iv)));
                }
            },
        }
        j = j + 1;
        proof {
            bv.lemma_filter_map_take_succ(entry, j - 1);
        }
    }
    proof {
        assert(bv.take(j as int) =~= bv);
    }
    *params = out_p;
    *body = out;
}

/// Some referenced position carries canonical id `c`.
pub open spec fn has_canonical(refs: Map<int, int>, c: int) -> bool {
    exists|p: int| #[trigger] refs.contains_key(p) && refs[p] == c
}

/// Invariant of the collector state: every used identity resolves to a
/// position with a canonical id; canonical ids are exactly the dense range
/// `[0, n)`, one per referenced position; every referenced position is owed to
/// some used identity.
pub open spec fn collect_inv(defs: Map<Id, int>, st: (int, Set<Id>, Map<int, int>)) -> bool {
    &&& 0 <= st.0
    &&& st.2.dom().finite()
    &&& st.0 == st.2.dom().len()
    &&& forall|id: Id|
        #[trigger] st.1.contains(id) ==> defs.contains_key(id) && st.2.contains_key(defs[id])
    &&& forall|p: int| #[trigger] st.2.contains_key(p) ==> 0 <= st.2[p] < st.0
    &&& forall|p: int|
        #[trigger] st.2.contains_key(p) ==> exists|id: Id|
            #[trigger] st.1.contains(id) && defs.contains_key(id) && defs[id] == p
    &&& forall|c: int| 0 <= c < st.0 ==> #[trigger] has_canonical(st.2, c)
    &&& forall|p1: int, p2: int|
        st.2.contains_key(p1) && st.2.contains_key(p2) && p1 != p2 ==> #[trigger] st.2[p1]
            != #[trigger] st.2[p2]
    &&& forall|id1: Id, id2: Id|
        #[trigger] st.1.contains(id1) && #[trigger] st.1.contains(id2) && id1 != id2 ==> defs[id1]
            != defs[id2]
}

/// Scanning a reference stream preserves the collector invariant, never
/// removes or renumbers an entry, and leaves every resolvable label of the
/// stream with a canonical id for its position.
proof fn lemma_collect_scan_inv(
    defs: Map<Id, int>,
    st: (int, Set<Id>, Map<int, int>),
    s: Seq<LabelV>,
)
    requires
        collect_inv(defs, st),
    ensures
        ({
            let r = collect_scan_from(defs, st, s);
            &&& collect_inv(defs, r)
            &&& st.0 <= r.0 <= st.0 + s.len()
            &&& forall|p: int|
                #[trigger] st.2.contains_key(p) ==> r.2.contains_key(p) && r.2[p] == st.2[p]
            &&& forall|id: Id| #[trigger] st.1.contains(id) ==> r.1.contains(id)
            &&& forall|j: int|
                0 <= j < s.len() && (#[trigger] s[j]) is Regular && defs.contains_key(s[j].id())
                    ==> r.2.contains_key(defs[s[j].id()])
            &&& forall|id: Id|
                #[trigger] r.1.contains(id) ==> st.1.contains(id) || exists|j: int|
                    0 <= j < s.len() && s[j] == LabelV::Regular(id)
        }),
    decreases s.len(),
{
    if s.len() > 0 {
        lemma_collect_scan_inv(defs, st, s.drop_last());
        let mid = collect_scan_from(defs, st, s.drop_last());
        let r = collect_step(defs, mid, s.last());
        if s.last() matches LabelV::Regular(id) && defs.contains_key(id) && !mid.2.contains_key(
            defs[id],
        ) {
            let id = s.last().id();
            let newp = defs[id];
            assert(r.0 == mid.0 + 1);
            assert(r.1 == mid.1.insert(id));
            assert(r.2 == mid.2.insert(newp, mid.0));
            assert forall|c: int| 0 <= c < r.0 implies #[trigger] has_canonical(r.2, c) by {
                if c < mid.0 {
                    assert(has_canonical(mid.2, c));
                    let p = choose|p: int| #[trigger] mid.2.contains_key(p) && mid.2[p] == c;
                    assert(r.2.contains_key(p) && r.2[p] == c);
                } else {
                    assert(r.2.contains_key(newp) && r.2[newp] == mid.0);
                }
            }
            assert forall|p: int| #[trigger] r.2.contains_key(p) implies exists|id2: Id|
                #[trigger] r.1.contains(id2) && defs.contains_key(id2) && defs[id2] == p by {
                if p == newp {
                    assert(r.1.contains(id) && defs.contains_key(id) && defs[id] == p);
                } else {
                    let id2 = choose|id2: Id|
                        #[trigger] mid.1.contains(id2) && defs.contains_key(id2) && defs[id2] == p;
                    assert(r.1.contains(id2));
                }
            }
        }
        assert forall|j: int|
            0 <= j < s.len() && (#[trigger] s[j]) is Regular && defs.contains_key(
                s[j].id(),
            ) implies r.2.contains_key(defs[s[j].id()]) by {
            if j < s.len() - 1 {
                assert(s.drop_last()[j] == s[j]);
            }
        }
        assert forall|id: Id| #[trigger] r.1.contains(id) implies st.1.contains(id) || exists|j: int|
            0 <= j < s.len() && s[j] == LabelV::Regular(id) by {
            if mid.1.contains(id) {
                if !st.1.contains(id) {
                    let j = choose|j: int|
                        0 <= j < s.drop_last().len() && s.drop_last()[j] == LabelV::Regular(id);
                    assert(s[j] == LabelV::Regular(id));
                }
            } else {
                assert(s[s.len() - 1] == LabelV::Regular(id));
            }
        }
    }
}

/// An error-free stream consists of resolvable numeric labels only.
proof fn lemma_stream_ok(defs: Map<Id, int>, s: Seq<LabelV>)
    requires
        stream_err(defs, s) is None,
    ensures
        forall|j: int|
            0 <= j < s.len() ==> (#[trigger] s[j]) is Regular && defs.contains_key(s[j].id()),
    decreases s.len(),
{
    if s.len() > 0 {
        lemma_stream_ok(defs, s.drop_last());
        assert forall|j: int| 0 <= j < s.len() implies (#[trigger] s[j]) is Regular
            && defs.contains_key(s[j].id()) by {
            if j < s.len() - 1 {
                assert(s.drop_last()[j] == s[j]);
            } else {
                assert(label_err(defs, s.last()) is None);
            }
        }
    }
}

/// Each label operand of a body instruction occurs in the body's reference
/// stream.
proof fn lemma_operand_in_body_stream(body: Seq<InstrV>, j: int, k: int)
    requires
        0 <= j < body.len(),
        0 <= k < label_operands(body[j]).len(),
    ensures
        exists|m: int|
            0 <= m < body_ref_stream(body).len() && body_ref_stream(body)[m] == label_operands(
                body[j],
            )[k],
{
    let streams = body.map_values(|iv: InstrV| label_operands(iv));
    lemma_flatten_split(streams, j + 1);
    lemma_flatten_take_succ(streams, j);
    let m = streams.take(j).flatten().len() + k;
    assert(body_ref_stream(body)[m as int] == label_operands(body[j])[k]);
}

/// Each parameter default target occurs in the parameter reference stream.
proof fn lemma_param_target_in_stream(params: Seq<ParamV>, j: int)
    requires
        0 <= j < params.len(),
        params[j].default_value is Some,
    ensures
        exists|m: int|
            0 <= m < param_ref_stream(params).len() && param_ref_stream(params)[m]
                == params[j].default_value->0,
{
    let streams = params.map_values(
        |p: ParamV|
            match p.default_value {
                Some(l) => seq![l],
                None => Seq::<LabelV>::empty(),
            },
    );
    lemma_flatten_split(streams, j + 1);
    lemma_flatten_take_succ(streams, j);
    let m = streams.take(j).flatten().len() as int;
    assert(param_ref_stream(params)[m] == params[j].default_value->0);
}

/// Every label definition of the body has an entry in the definition map.
proof fn lemma_def_in_map(body: Seq<InstrV>, j: int)
    requires
        0 <= j < body.len(),
        body[j] matches InstrV::LabelDef(l) && l is Regular,
    ensures
        label_defs(body).contains_key(body[j]->LabelDef_0.id()),
    decreases body.len(),
{
    if j == body.len() - 1 {
        assert(body.last() == body[j]);
    } else {
        lemma_def_in_map(body.drop_last(), j);
        assert(body.drop_last()[j] == body[j]);
    }
}

/// On a function the collector accepts, its outputs let the rewriter resolve
/// every reference and every definition: the fatal `InconsistentRewrite`
/// condition is unreachable through `relabel_function`.
proof fn lemma_collector_establishes_rw_ok(pv: Seq<ParamV>, bv: Seq<InstrV>)
    requires
        defs_resolved(bv),
        stream_err(label_defs(bv), ref_stream(pv, bv)) is None,
    ensures
        ({
            let dm = label_defs(bv);
            let st = collect_scan(dm, ref_stream(pv, bv));
            rw_ok(dm, st.1, st.2, pv, bv)
        }),
{
    let dm = label_defs(bv);
    let stream = ref_stream(pv, bv);
    let init: (int, Set<Id>, Map<int, int>) = (0, Set::empty(), Map::empty());
    let st = collect_scan(dm, stream);
    lemma_collect_scan_inv(dm, init, stream);
    lemma_stream_ok(dm, stream);
    assert forall|j: int| 0 <= j < bv.len() implies instr_rw_ok(dm, st.2, #[trigger] bv[j])
        && def_rw_ok(dm, st.1, st.2, bv[j]) by {
        assert forall|k: int| 0 <= k < label_operands(bv[j]).len() implies label_rw_ok(
            dm,
            st.2,
            #[trigger] label_operands(bv[j])[k],
        ) by {
            lemma_operand_in_body_stream(bv, j, k);
            let m = choose|m: int|
                0 <= m < body_ref_stream(bv).len() && body_ref_stream(bv)[m] == label_operands(
                    bv[j],
                )[k];
            assert(stream[m] == label_operands(bv[j])[k]);
        }
        if bv[j] is LabelDef {
            let l = bv[j]->LabelDef_0;
            assert(bv[j] matches InstrV::LabelDef(l2) ==> l2 is Regular);
            lemma_def_in_map(bv, j);
        }
    }
    assert forall|j: int| 0 <= j < pv.len() implies param_rw_ok(dm, st.2, #[trigger] pv[j]) by {
        if pv[j].default_value is Some {
            lemma_param_target_in_stream(pv, j);
            let m = choose|m: int|
                0 <= m < param_ref_stream(pv).len() && param_ref_stream(pv)[m]
                    == pv[j].default_value->0;
            assert(stream[body_ref_stream(bv).len() + m] == pv[j].default_value->0);
        }
    }
}

/// Relabels one function in place: label definitions and references are
/// renumbered to dense canonical ids assigned in first-use traversal order
/// (body before parameter defaults), and unreferenced definitions are
/// deleted.  Returns `Ok` exactly on well-formed input — every label already
/// numeric and every reference defined — and otherwise leaves the function
/// unchanged and reports the first violation the traversal meets.
pub fn relabel_function(params: &mut Vec<Param>, body: &mut Vec<Instr>) -> (r: Result<
    (),
    RelabelError,
>)
    ensures
        ({
            let pv = old(params).deep_view();
            let bv = old(body).deep_view();
            let dm = label_defs(bv);
            let stream = ref_stream(pv, bv);
            let st = collect_scan(dm, stream);
            &&& r is Ok <==> (defs_resolved(bv) && stream_err(dm, stream) is None)
            &&& r is Ok ==> final(params).deep_view() == rewrite_params(dm, st.2, pv)
                && final(body).deep_view() == rewrite_body(dm, st.1, st.2, bv)
            &&& r matches Err(e) ==> final(params)@ == old(params)@ && final(body)@ == old(body)@
                && (if defs_resolved(bv) {
                stream_err(dm, stream) == Some(e)
            } else {
                e == RelabelError::UnresolvedLabel
            })
        }),
{
    let ghost pv = params.deep_view();
    let ghost bv = body.deep_view();
    let defs = match create_label_to_offset_map(body) {
        Ok(d) => d,
        Err(e) => {
            return Err(e);
        },
    };
    let (used, refs) = match create_label_ref_map(&defs, params, body) {
        Ok(p) => p,
        Err(e) => {
            return Err(e);
        },
    };
    proof {
        lemma_collector_establishes_rw_ok(pv, bv);
    }
    rewrite_params_and_body(&defs, &used, &refs, params, body);
    Ok(())
}

/// Every key of the definition map comes from a label definition in the body.
proof fn lemma_map_key_has_def(body: Seq<InstrV>, id: Id)
    requires
        label_defs(body).contains_key(id),
    ensures
        exists|j: int|
            0 <= j < body.len() && body[j] == InstrV::LabelDef(LabelV::Regular(id)),
    decreases body.len(),
{
    if body.len() > 0 {
        if body.last() == InstrV::LabelDef(LabelV::Regular(id)) {
            assert(body[body.len() - 1] == InstrV::LabelDef(LabelV::Regular(id)));
        } else {
            assert(label_defs(body.drop_last()).contains_key(id));
            lemma_map_key_has_def(body.drop_last(), id);
            let j = choose|j: int|
                0 <= j < body.drop_last().len() && body.drop_last()[j] == InstrV::LabelDef(
                    LabelV::Regular(id),
                );
            assert(body[j] == InstrV::LabelDef(LabelV::Regular(id)));
        }
    }
}

/// An element a stream entry maps to occurs in the mapped-and-filtered stream.
proof fn lemma_filter_map_mem_fwd<A, B>(s: Seq<A>, f: spec_fn(A) -> Option<B>, j: int)
    requires
        0 <= j < s.len(),
        f(s[j]) is Some,
    ensures
        s.filter_map(f).contains(f(s[j])->0),
    decreases s.len(),
{
    if j == s.len() - 1 {
        let n = s.drop_last().filter_map(f).len();
        assert(s.filter_map(f)[n as int] == f(s[j])->0);
    } else {
        lemma_filter_map_mem_fwd(s.drop_last(), f, j);
        assert(s.drop_last()[j] == s[j]);
        let m = choose|m: int|
            0 <= m < s.drop_last().filter_map(f).len() && s.drop_last().filter_map(f)[m] == f(
                s[j],
            )->0;
        assert(s.filter_map(f)[m] == f(s[j])->0);
    }
}

/// Rewriting an instruction rewrites each of its label operands, in place.
proof fn lemma_operands_of_rw_instr(dm: Map<Id, int>, rm: Map<int, int>, i: InstrV)
    ensures
        label_operands(rw_instr(dm, rm, i)) == label_operands(i).map_values(
            |l: LabelV| rw_label(dm, rm, l),
        ),
{
    let f = |l: LabelV| rw_label(dm, rm, l);
    match i {
        InstrV::Switch(ls) => {
            assert(label_operands(rw_instr(dm, rm, i)) =~= ls.map_values(f));
        },
        InstrV::SSwitch(ps) => {
            assert(label_operands(rw_instr(dm, rm, i)) =~= ps.map_values(
                |p: (Seq<char>, LabelV)| p.1,
            ).map_values(f));
        },
        _ => {
            assert(label_operands(rw_instr(dm, rm, i)) =~= label_operands(i).map_values(f));
        },
    }
}

/// Every canonical id the collector assigned names a label definition that the
/// rewritten body still holds.
proof fn lemma_kept_def_in_output(pv: Seq<ParamV>, bv: Seq<InstrV>, p: int)
    requires
        defs_resolved(bv),
        stream_err(label_defs(bv), ref_stream(pv, bv)) is None,
        collect_scan(label_defs(bv), ref_stream(pv, bv)).2.contains_key(p),
    ensures
        ({
            let dm = label_defs(bv);
            let st = collect_scan(dm, ref_stream(pv, bv));
            let out = rewrite_body(dm, st.1, st.2, bv);
            exists|j2: int|
                0 <= j2 < out.len() && out[j2] == InstrV::LabelDef(
                    LabelV::Regular(st.2[p] as usize),
                )
        }),
{
    let dm = label_defs(bv);
    let stream = ref_stream(pv, bv);
    let init: (int, Set<Id>, Map<int, int>) = (0, Set::empty(), Map::empty());
    let st = collect_scan(dm, stream);
    let out = rewrite_body(dm, st.1, st.2, bv);
    let entry = |i: InstrV| rw_entry(dm, st.1, st.2, i);
    lemma_collect_scan_inv(dm, init, stream);
    let id = choose|id: Id| #[trigger] st.1.contains(id) && dm.contains_key(id) && dm[id] == p;
    lemma_map_key_has_def(bv, id);
    let j0 = choose|j: int|
        0 <= j < bv.len() && bv[j] == InstrV::LabelDef(LabelV::Regular(id));
    assert(keep_instr(st.1, bv[j0]));
    assert(entry(bv[j0]) == Some(InstrV::LabelDef(LabelV::Regular(st.2[p] as usize))));
    lemma_filter_map_mem_fwd(bv, entry, j0);
    let j2 = choose|j2: int|
        0 <= j2 < out.len() && out[j2] == InstrV::LabelDef(LabelV::Regular(st.2[p] as usize));
    assert(0 <= j2 < out.len() && out[j2] == InstrV::LabelDef(LabelV::Regular(st.2[p] as usize)));
}

/// Some position of the rewritten body holds a definition of canonical id `c`.
pub open spec fn output_defines(out: Seq<InstrV>, c: Id) -> bool {
    exists|j: int| 0 <= j < out.len() && out[j] == InstrV::LabelDef(LabelV::Regular(c))
}

/// Law: on every function the pass accepts, the canonical ids form the dense
/// range `[0, k)`, where `k` is the number of distinct referenced label
/// definitions, assigned in first-use traversal order — the body's operands
/// first, then the parameter defaults, as `collect_scan` walks them.  The
/// rewritten body defines exactly the ids below `k`, and every label operand
/// left in the body or the parameters is a numeric id below `k`.
pub proof fn lemma_canonical_ids_dense(pv: Seq<ParamV>, bv: Seq<InstrV>)
    requires
        defs_resolved(bv),
        stream_err(label_defs(bv), ref_stream(pv, bv)) is None,
        ref_stream(pv, bv).len() <= usize::MAX,
    ensures
        ({
            let dm = label_defs(bv);
            let st = collect_scan(dm, ref_stream(pv, bv));
            let out = rewrite_body(dm, st.1, st.2, bv);
            let outp = rewrite_params(dm, st.2, pv);
            &&& st.0 == st.2.dom().len()
            &&& forall|p: int| #[trigger] st.2.contains_key(p) ==> 0 <= st.2[p] < st.0
            &&& forall|c: int| 0 <= c < st.0 ==> #[trigger] has_canonical(st.2, c)
            &&& forall|c: Id| #[trigger] output_defines(out, c) <==> (c as int) < st.0
            &&& forall|j: int, m: int|
                0 <= j < out.len() && 0 <= m < label_operands(out[j]).len() ==> (
                #[trigger] label_operands(out[j])[m]) is Regular && (label_operands(out[j])[m].id()
                    as int) < st.0
            &&& forall|j: int|
                0 <= j < outp.len() && (#[trigger] outp[j]).default_value is Some ==> (
                outp[j].default_value->0) is Regular && (outp[j].default_value->0.id() as int)
                    < st.0
        }),
{
    let dm = label_defs(bv);
    let stream = ref_stream(pv, bv);
    let init: (int, Set<Id>, Map<int, int>) = (0, Set::empty(), Map::empty());
    let st = collect_scan(dm, stream);
    let out = rewrite_body(dm, st.1, st.2, bv);
    let outp = rewrite_params(dm, st.2, pv);
    let entry = |i: InstrV| rw_entry(dm, st.1, st.2, i);
    lemma_collect_scan_inv(dm, init, stream);
    lemma_collector_establishes_rw_ok(pv, bv);
    assert forall|c: Id| #[trigger] output_defines(out, c) implies (c as int) < st.0 by {
        let j = choose|j: int|
            0 <= j < out.len() && out[j] == InstrV::LabelDef(LabelV::Regular(c));
        assert(out.contains(out[j]));
        broadcast use vstd::prelude::Seq::lemma_filter_map_contains;

        let t = choose|t: InstrV| #[trigger] bv.contains(t) && entry(t) == Some(out[j]);
        let j0 = choose|j0: int| 0 <= j0 < bv.len() && bv[j0] == t;
        assert(def_rw_ok(dm, st.1, st.2, bv[j0]));
        let l = t->LabelDef_0;
        assert(c == (st.2[dm[l.id()]] as usize));
        assert(0 <= st.2[dm[l.id()]] < st.0);
    }
    assert forall|c: Id| (c as int) < st.0 implies #[trigger] output_defines(out, c) by {
        assert(has_canonical(st.2, c as int));
        let p = choose|p: int| #[trigger] st.2.contains_key(p) && st.2[p] == c as int;
        lemma_kept_def_in_output(pv, bv, p);
    }
    assert forall|j: int, m: int|
        0 <= j < out.len() && 0 <= m < label_operands(out[j]).len() implies (
    #[trigger] label_operands(out[j])[m]) is Regular && (label_operands(out[j])[m].id() as int)
        < st.0 by {
        assert(out.contains(out[j]));
        broadcast use vstd::prelude::Seq::lemma_filter_map_contains;

        let t = choose|t: InstrV| #[trigger] bv.contains(t) && entry(t) == Some(out[j]);
        let j0 = choose|j0: int| 0 <= j0 < bv.len() && bv[j0] == t;
        assert(instr_rw_ok(dm, st.2, bv[j0]));
        if t is LabelDef {
            assert(label_operands(out[j]).len() == 0);
        } else {
            lemma_operands_of_rw_instr(dm, st.2, t);
            let op = label_operands(t)[m];
            assert(label_rw_ok(dm, st.2, op));
            assert(label_operands(out[j])[m] == rw_label(dm, st.2, op));
            assert(0 <= st.2[dm[op.id()]] < st.0);
        }
    }
    assert forall|j: int|
        0 <= j < outp.len() && (#[trigger] outp[j]).default_value is Some implies (
    outp[j].default_value->0) is Regular && (outp[j].default_value->0.id() as int) < st.0 by {
        assert(outp[j] == rw_param(dm, st.2, pv[j]));
        assert(param_rw_ok(dm, st.2, pv[j]));
        let l = pv[j].default_value->0;
        assert(outp[j].default_value->0 == rw_label(dm, st.2, l));
        assert(0 <= st.2[dm[l.id()]] < st.0);
    }
}

/// Law: every label operand left in the rewritten body or parameters resolves
/// to a label definition the rewritten body still holds.
pub proof fn lemma_reference_completeness(pv: Seq<ParamV>, bv: Seq<InstrV>)
    requires
        defs_resolved(bv),
        stream_err(label_defs(bv), ref_stream(pv, bv)) is None,
    ensures
        ({
            let dm = label_defs(bv);
            let st = collect_scan(dm, ref_stream(pv, bv));
            let out = rewrite_body(dm, st.1, st.2, bv);
            let outp = rewrite_params(dm, st.2, pv);
            &&& forall|j: int, m: int|
                0 <= j < out.len() && 0 <= m < label_operands(out[j]).len() ==> exists|j2: int|
                    0 <= j2 < out.len() && out[j2] == InstrV::LabelDef(
                        #[trigger] label_operands(out[j])[m],
                    )
            &&& forall|j: int|
                0 <= j < outp.len() && (#[trigger] outp[j]).default_value is Some ==> exists|
                    j2: int,
                |
                    0 <= j2 < out.len() && out[j2] == InstrV::LabelDef(outp[j].default_value->0)
        }),
{
    let dm = label_defs(bv);
    let stream = ref_stream(pv, bv);
    let init: (int, Set<Id>, Map<int, int>) = (0, Set::empty(), Map::empty());
    let st = collect_scan(dm, stream);
    let out = rewrite_body(dm, st.1, st.2, bv);
    let outp = rewrite_params(dm, st.2, pv);
    let entry = |i: InstrV| rw_entry(dm, st.1, st.2, i);
    lemma_collect_scan_inv(dm, init, stream);
    lemma_collector_establishes_rw_ok(pv, bv);
    assert forall|j: int, m: int|
        0 <= j < out.len() && 0 <= m < label_operands(out[j]).len() implies exists|j2: int|
        0 <= j2 < out.len() && out[j2] == InstrV::LabelDef(
            #[trigger] label_operands(out[j])[m],
        ) by {
        assert(out.contains(out[j]));
        broadcast use vstd::prelude::Seq::lemma_filter_map_contains;

        let t = choose|t: InstrV| #[trigger] bv.contains(t) && entry(t) == Some(out[j]);
        let j0 = choose|j0: int| 0 <= j0 < bv.len() && bv[j0] == t;
        assert(instr_rw_ok(dm, st.2, bv[j0]));
        if t is LabelDef {
            assert(label_operands(out[j]).len() == 0);
        } else {
            lemma_operands_of_rw_instr(dm, st.2, t);
            let op = label_operands(t)[m];
            assert(label_rw_ok(dm, st.2, op));
            assert(label_operands(out[j])[m] == rw_label(dm, st.2, op));
            lemma_kept_def_in_output(pv, bv, dm[op.id()]);
        }
    }
    assert forall|j: int|
        0 <= j < outp.len() && (#[trigger] outp[j]).default_value is Some implies exists|j2: int|
        0 <= j2 < out.len() && out[j2] == InstrV::LabelDef(outp[j].default_value->0) by {
        assert(outp[j] == rw_param(dm, st.2, pv[j]));
        assert(param_rw_ok(dm, st.2, pv[j]));
        let l = pv[j].default_value->0;
        assert(outp[j].default_value->0 == rw_label(dm, st.2, l));
        lemma_kept_def_in_output(pv, bv, dm[l.id()]);
    }
}

/// The rewritten body is the kept instructions, in their original relative
/// order, each with its labels rewritten.
proof fn lemma_rewrite_body_split(
    dm: Map<Id, int>,
    used: Set<Id>,
    rm: Map<int, int>,
    body: Seq<InstrV>,
)
    ensures
        rewrite_body(dm, used, rm, body) == body.filter(|i: InstrV| keep_instr(used, i)).map_values(
            |i: InstrV| rw_instr(dm, rm, i),
        ),
    decreases body.len(),
{
    reveal(Seq::filter);
    let keep = |i: InstrV| keep_instr(used, i);
    let g = |i: InstrV| rw_instr(dm, rm, i);
    if body.len() == 0 {
        assert(rewrite_body(dm, used, rm, body) =~= body.filter(keep).map_values(g));
    } else {
        lemma_rewrite_body_split(dm, used, rm, body.drop_last());
        assert(rewrite_body(dm, used, rm, body) =~= body.filter(keep).map_values(g));
    }
}

/// Law: a label definition that no jump, dispatch, iterator or memoization
/// instruction and no parameter default references is dropped by the rewrite;
/// the output is exactly the kept instructions in their original relative
/// order, each with its labels rewritten.
pub proof fn lemma_dead_label_elimination(pv: Seq<ParamV>, bv: Seq<InstrV>)
    requires
        defs_resolved(bv),
        stream_err(label_defs(bv), ref_stream(pv, bv)) is None,
    ensures
        ({
            let dm = label_defs(bv);
            let st = collect_scan(dm, ref_stream(pv, bv));
            &&& forall|j: int|
                0 <= j < bv.len() ==> ((#[trigger] bv[j]) matches InstrV::LabelDef(l)
                    && !ref_stream(pv, bv).contains(l) ==> !keep_instr(st.1, bv[j]))
            &&& rewrite_body(dm, st.1, st.2, bv) == bv.filter(
                |i: InstrV| keep_instr(st.1, i),
            ).map_values(|i: InstrV| rw_instr(dm, st.2, i))
        }),
{
    let dm = label_defs(bv);
    let stream = ref_stream(pv, bv);
    let init: (int, Set<Id>, Map<int, int>) = (0, Set::empty(), Map::empty());
    let st = collect_scan(dm, stream);
    lemma_collect_scan_inv(dm, init, stream);
    assert forall|j: int|
        0 <= j < bv.len() implies ((#[trigger] bv[j]) matches InstrV::LabelDef(l) && !ref_stream(
        pv,
        bv,
    ).contains(l) ==> !keep_instr(st.1, bv[j])) by {
        if bv[j] is LabelDef && !stream.contains(bv[j]->LabelDef_0) {
            let l = bv[j]->LabelDef_0;
            if keep_instr(st.1, bv[j]) {
                let id = l.id();
                assert(st.1.contains(id));
                let m = choose|m: int| 0 <= m < stream.len() && stream[m] == LabelV::Regular(id);
                assert(stream.contains(l));
            }
        }
    }
    lemma_rewrite_body_split(dm, st.1, st.2, bv);
}

/// After rewriting, the definition map is the original one carried through
/// the renaming: each used identity's definition keeps its position under its
/// canonical name, positions of other instructions do not shift, and no other
/// definition survives.
proof fn lemma_def_scan_of_rewrite(
    dm: Map<Id, int>,
    used: Set<Id>,
    rm: Map<int, int>,
    s: Seq<InstrV>,
)
    requires
        forall|j: int| 0 <= j < s.len() ==> def_rw_ok(dm, used, rm, #[trigger] s[j]),
        forall|id: Id|
            #[trigger] used.contains(id) ==> dm.contains_key(id) && rm.contains_key(dm[id]),
        forall|id1: Id, id2: Id|
            #[trigger] used.contains(id1) && #[trigger] used.contains(id2) && id1 != id2
                ==> dm[id1] != dm[id2],
        forall|p1: int, p2: int|
            rm.contains_key(p1) && rm.contains_key(p2) && p1 != p2 ==> #[trigger] rm[p1]
                != #[trigger] rm[p2],
        forall|p: int| #[trigger] rm.contains_key(p) ==> 0 <= rm[p] <= usize::MAX,
    ensures
        ({
            let m = def_scan(s);
            let out = rewrite_body(dm, used, rm, s);
            let m2 = def_scan(out);
            &&& m2.0 == m.0
            &&& forall|id: Id|
                #[trigger] m.1.contains_key(id) && used.contains(id) ==> m2.1.contains_key(
                    (rm[dm[id]] as usize),
                ) && m2.1[(rm[dm[id]] as usize)] == m.1[id]
            &&& forall|c: Id|
                #[trigger] m2.1.contains_key(c) ==> exists|id: Id|
                    #[trigger] used.contains(id) && m.1.contains_key(id) && c == (rm[dm[id]]
                        as usize)
        }),
    decreases s.len(),
{
    let entry = |i: InstrV| rw_entry(dm, used, rm, i);
    let m = def_scan(s);
    let out = rewrite_body(dm, used, rm, s);
    let m2 = def_scan(out);
    if s.len() == 0 {
    } else {
        let rest = s.drop_last();
        assert(forall|j: int|
            0 <= j < rest.len() ==> def_rw_ok(dm, used, rm, #[trigger] rest[j]));
        lemma_def_scan_of_rewrite(dm, used, rm, rest);
        let mp = def_scan(rest);
        let outp_ = rewrite_body(dm, used, rm, rest);
        let m2p = def_scan(outp_);
        assert(def_rw_ok(dm, used, rm, s.last()));
        match s.last() {
            InstrV::LabelDef(l) => {
                let id = l.id();
                if used.contains(id) {
                    let c = (rm[dm[id]] as usize);
                    assert(out =~= outp_.push(InstrV::LabelDef(LabelV::Regular(c))));
                    assert(out.drop_last() =~= outp_);
                    assert(m2.0 == m2p.0 && m2.1 == m2p.1.insert(c, m2p.0));
                    assert(m.0 == mp.0 && m.1 == mp.1.insert(id, mp.0));
                    assert forall|id9: Id|
                        #[trigger] m.1.contains_key(id9) && used.contains(id9) implies
                    m2.1.contains_key((rm[dm[id9]] as usize)) && m2.1[(rm[dm[id9]] as usize)]
                        == m.1[id9] by {
                        if id9 != id {
                            assert(mp.1.contains_key(id9));
                            assert(dm[id9] != dm[id]);
                            assert(rm[dm[id9]] != rm[dm[id]]);
                            assert((rm[dm[id9]] as usize) != c);
                        }
                    }
                    assert forall|c9: Id| #[trigger] m2.1.contains_key(c9) implies exists|id9: Id|
                        #[trigger] used.contains(id9) && m.1.contains_key(id9) && c9 == (rm[dm[id9]]
                            as usize) by {
                        if c9 == c {
                            assert(used.contains(id) && m.1.contains_key(id) && c9 == (rm[dm[id]]
                                as usize));
                        } else {
                            assert(m2p.1.contains_key(c9));
                            let id9 = choose|id9: Id|
                                #[trigger] used.contains(id9) && mp.1.contains_key(id9) && c9 == (
                                rm[dm[id9]] as usize);
                            assert(m.1.contains_key(id9));
                        }
                    }
                } else {
                    assert(out =~= outp_);
                    assert(m.0 == mp.0);
                    assert forall|id9: Id|
                        #[trigger] m.1.contains_key(id9) && used.contains(id9) implies
                    m2.1.contains_key((rm[dm[id9]] as usize)) && m2.1[(rm[dm[id9]] as usize)]
                        == m.1[id9] by {
                        assert(id9 != id);
                        assert(mp.1.contains_key(id9) && mp.1[id9] == m.1[id9]);
                    }
                    assert forall|c9: Id| #[trigger] m2.1.contains_key(c9) implies exists|id9: Id|
                        #[trigger] used.contains(id9) && m.1.contains_key(id9) && c9 == (rm[dm[id9]]
                            as usize) by {
                        let id9 = choose|id9: Id|
                            #[trigger] used.contains(id9) && mp.1.contains_key(id9) && c9 == (
                            rm[dm[id9]] as usize);
                        assert(m.1.contains_key(id9));
                    }
                }
            },
            _ => {
                assert(!(rw_instr(dm, rm, s.last()) is LabelDef));
                assert(out =~= outp_.push(rw_instr(dm, rm, s.last())));
                assert(out.drop_last() =~= outp_);
                assert(m2.0 == m2p.0 + 1 && m2.1 == m2p.1);
                assert(m.0 == mp.0 + 1 && m.1 == mp.1);
            },
        }
    }
}

/// The body's reference stream splits over concatenation.
proof fn lemma_body_stream_concat(a: Seq<InstrV>, b: Seq<InstrV>)
    ensures
        body_ref_stream(a + b) == body_ref_stream(a) + body_ref_stream(b),
{
    let ops = |i: InstrV| label_operands(i);
    assert((a + b).map_values(ops) =~= a.map_values(ops) + b.map_values(ops));
    vstd::seq_lib::lemma_flatten_concat(a.map_values(ops), b.map_values(ops));
}

/// Rewriting the body maps its reference stream label by label: no reference
/// is added, dropped or reordered.
proof fn lemma_stream_of_rewrite_body(
    dm: Map<Id, int>,
    used: Set<Id>,
    rm: Map<int, int>,
    s: Seq<InstrV>,
)
    ensures
        body_ref_stream(rewrite_body(dm, used, rm, s)) == body_ref_stream(s).map_values(
            |l: LabelV| rw_label(dm, rm, l),
        ),
    decreases s.len(),
{
    broadcast use vstd::prelude::Seq::lemma_flatten_push;

    let rwl = |l: LabelV| rw_label(dm, rm, l);
    let ops = |i: InstrV| label_operands(i);
    if s.len() == 0 {
        assert(rewrite_body(dm, used, rm, s) =~= Seq::<InstrV>::empty());
        assert(body_ref_stream(s) =~= Seq::<LabelV>::empty());
        assert(body_ref_stream(rewrite_body(dm, used, rm, s)) =~= body_ref_stream(s).map_values(
            rwl,
        ));
    } else {
        let rest = s.drop_last();
        lemma_stream_of_rewrite_body(dm, used, rm, rest);
        let outp_ = rewrite_body(dm, used, rm, rest);
        let out = rewrite_body(dm, used, rm, s);
        assert(rest.map_values(ops).push(ops(s.last())) =~= s.map_values(ops));
        assert(body_ref_stream(s) == body_ref_stream(rest) + ops(s.last()));
        assert(body_ref_stream(s).map_values(rwl) =~= body_ref_stream(rest).map_values(rwl) + ops(
            s.last(),
        ).map_values(rwl));
        match rw_entry(dm, used, rm, s.last()) {
            Some(ri) => {
                assert(out =~= outp_.push(ri));
                assert(outp_.map_values(ops).push(ops(ri)) =~= out.map_values(ops));
                assert(body_ref_stream(out) == body_ref_stream(outp_) + ops(ri));
                lemma_operands_of_rw_instr(dm, rm, s.last());
                if s.last() is LabelDef {
                    assert(ops(ri) =~= ops(s.last()).map_values(rwl));
                }
                assert(body_ref_stream(out) =~= body_ref_stream(s).map_values(rwl));
            },
            None => {
                assert(out =~= outp_);
                assert(ops(s.last()) =~= Seq::<LabelV>::empty());
                assert(ops(s.last()).map_values(rwl) =~= Seq::<LabelV>::empty());
                assert(body_ref_stream(out) =~= body_ref_stream(s).map_values(rwl));
            },
        }
    }
}

/// Rewriting the parameters maps their reference stream label by label.
proof fn lemma_stream_of_rewrite_params(dm: Map<Id, int>, rm: Map<int, int>, pv: Seq<ParamV>)
    ensures
        param_ref_stream(rewrite_params(dm, rm, pv)) == param_ref_stream(pv).map_values(
            |l: LabelV| rw_label(dm, rm, l),
        ),
    decreases pv.len(),
{
    broadcast use vstd::prelude::Seq::lemma_flatten_push;

    let rwl = |l: LabelV| rw_label(dm, rm, l);
    let f2 = |p: ParamV|
        match p.default_value {
            Some(l) => seq![l],
            None => Seq::<LabelV>::empty(),
        };
    if pv.len() == 0 {
        assert(rewrite_params(dm, rm, pv) =~= Seq::<ParamV>::empty());
        assert(param_ref_stream(pv) =~= Seq::<LabelV>::empty());
        assert(param_ref_stream(rewrite_params(dm, rm, pv)) =~= param_ref_stream(pv).map_values(
            rwl,
        ));
    } else {
        let rest = pv.drop_last();
        lemma_stream_of_rewrite_params(dm, rm, rest);
        let outp_ = rewrite_params(dm, rm, rest);
        let out = rewrite_params(dm, rm, pv);
        assert(out =~= outp_.push(rw_param(dm, rm, pv.last())));
        assert(rest.map_values(f2).push(f2(pv.last())) =~= pv.map_values(f2));
        assert(param_ref_stream(pv) == param_ref_stream(rest) + f2(pv.last()));
        assert(outp_.map_values(f2).push(f2(rw_param(dm, rm, pv.last()))) =~= out.map_values(f2));
        assert(param_ref_stream(out) == param_ref_stream(outp_) + f2(rw_param(dm, rm, pv.last())));
        assert(f2(rw_param(dm, rm, pv.last())) =~= f2(pv.last()).map_values(rwl));
        assert(param_ref_stream(out) =~= param_ref_stream(pv).map_values(rwl));
    }
}

/// The canonical names of the referenced positions of `r`, under `rm`.
pub open spec fn rename_image(rm: Map<int, int>, r: Map<int, int>) -> Set<Id> {
    Set::new(|c: Id| exists|p: int| #[trigger] r.contains_key(p) && c == (rm[p] as usize))
}

/// A stream of resolvable labels has no error.
proof fn lemma_stream_ok_converse(defs: Map<Id, int>, s: Seq<LabelV>)
    requires
        forall|j: int| 0 <= j < s.len() ==> label_err(defs, #[trigger] s[j]) is None,
    ensures
        stream_err(defs, s) is None,
    decreases s.len(),
{
    if s.len() > 0 {
        assert(forall|j: int|
            0 <= j < s.drop_last().len() ==> label_err(defs, #[trigger] s.drop_last()[j]) is None);
        lemma_stream_ok_converse(defs, s.drop_last());
        assert(label_err(defs, s[s.len() - 1]) is None);
    }
}

/// Collecting the renamed stream under the rewritten definition map walks the
/// same positions in the same order: it rebuilds the same canonical map, and
/// marks used exactly the canonical names of the referenced positions.
proof fn lemma_collect_scan_renamed(
    dm: Map<Id, int>,
    rm: Map<int, int>,
    dm2: Map<Id, int>,
    s: Seq<LabelV>,
    st: (int, Set<Id>, Map<int, int>),
    u2: Set<Id>,
)
    requires
        forall|j: int| 0 <= j < s.len() ==> label_rw_ok(dm, rm, #[trigger] s[j]),
        forall|j: int|
            0 <= j < s.len() ==> dm2.contains_key(rw_label(dm, rm, #[trigger] s[j]).id())
                && dm2[rw_label(dm, rm, s[j]).id()] == dm[s[j].id()],
        u2 == rename_image(rm, st.2),
    ensures
        ({
            let r1 = collect_scan_from(dm, st, s);
            let r2 = collect_scan_from(
                dm2,
                (st.0, u2, st.2),
                s.map_values(|l: LabelV| rw_label(dm, rm, l)),
            );
            &&& r2.0 == r1.0
            &&& r2.2 == r1.2
            &&& r2.1 == rename_image(rm, r1.2)
        }),
    decreases s.len(),
{
    let rwl = |l: LabelV| rw_label(dm, rm, l);
    if s.len() == 0 {
        assert(s.map_values(rwl) =~= Seq::<LabelV>::empty());
    } else {
        let rest = s.drop_last();
        assert(forall|j: int|
            0 <= j < rest.len() ==> label_rw_ok(dm, rm, #[trigger] rest[j]));
        assert forall|j: int|
            0 <= j < rest.len() implies dm2.contains_key(rw_label(dm, rm, #[trigger] rest[j]).id())
            && dm2[rw_label(dm, rm, rest[j]).id()] == dm[rest[j].id()] by {
            assert(rest[j] == s[j]);
        }
        lemma_collect_scan_renamed(dm, rm, dm2, rest, st, u2);
        let m1 = collect_scan_from(dm, st, rest);
        let m2 = collect_scan_from(dm2, (st.0, u2, st.2), rest.map_values(rwl));
        assert(s.map_values(rwl).drop_last() =~= rest.map_values(rwl));
        assert(s.map_values(rwl).last() == rwl(s.last()));
        let l = s.last();
        assert(label_rw_ok(dm, rm, l));
        let p = dm[l.id()];
        let c = rw_label(dm, rm, l).id();
        assert(rw_label(dm, rm, l) == LabelV::Regular((rm[p] as usize)));
        assert(dm2.contains_key(c) && dm2[c] == p);
        let r1 = collect_step(dm, m1, l);
        let r2 = collect_step(dm2, m2, rw_label(dm, rm, l));
        if !m1.2.contains_key(p) {
            assert(r1.2 == m1.2.insert(p, m1.0));
            assert(r2.2 == m1.2.insert(p, m1.0));
            assert(r2.1 == m2.1.insert(c));
            assert forall|c9: Id| #[trigger] r2.1.contains(c9) implies rename_image(
                rm,
                r1.2,
            ).contains(c9) by {
                if c9 == c {
                    assert(r1.2.contains_key(p) && c9 == (rm[p] as usize));
                } else {
                    let p9 = choose|p9: int|
                        #[trigger] m1.2.contains_key(p9) && c9 == (rm[p9] as usize);
                    assert(r1.2.contains_key(p9));
                }
            }
            assert forall|c9: Id| rename_image(rm, r1.2).contains(c9) implies #[trigger] r2.1.contains(
                c9,
            ) by {
                let p9 = choose|p9: int| #[trigger] r1.2.contains_key(p9) && c9 == (rm[p9] as usize);
                if p9 == p {
                } else {
                    assert(m1.2.contains_key(p9));
                    assert(m2.1.contains(c9));
                }
            }
            assert(r2.1 =~= rename_image(rm, r1.2));
        } else {
            assert(r1 == m1);
            assert(r2 == m2);
        }
    }
}

/// Rewriting keeps each instruction's variant; a definition stays a
/// definition, renamed.
proof fn lemma_rw_instr_variant(dm: Map<Id, int>, rm: Map<int, int>, i: InstrV)
    ensures
        rw_instr(dm, rm, i) is LabelDef <==> i is LabelDef,
        i matches InstrV::LabelDef(l) ==> rw_instr(dm, rm, i) == InstrV::LabelDef(
            LabelV::Regular((rm[dm[l.id()]] as usize)),
        ),
{
    match i {
        InstrV::LabelDef(l) => {
            assert(rw_instr(dm, rm, i) == InstrV::LabelDef(rw_label(dm, rm, l)));
        },
        _ => {
            assert(!(rw_instr(dm, rm, i) is LabelDef));
        },
    }
}

/// An instruction whose every label the rewrite maps to itself is unchanged.
proof fn lemma_rw_instr_identity(dm: Map<Id, int>, rm: Map<int, int>, i: InstrV)
    requires
        i matches InstrV::LabelDef(l) ==> rw_label(dm, rm, l) == l,
        forall|k: int|
            0 <= k < label_operands(i).len() ==> rw_label(dm, rm, #[trigger] label_operands(i)[k])
                == label_operands(i)[k],
    ensures
        rw_instr(dm, rm, i) == i,
{
    match i {
        InstrV::Switch(ls) => {
            assert(ls.map_values(|l: LabelV| rw_label(dm, rm, l)) =~= ls);
            assert(rw_instr(dm, rm, i) =~= i);
        },
        InstrV::SSwitch(ps) => {
            let mapped = ps.map_values(|p: (Seq<char>, LabelV)| (p.0, rw_label(dm, rm, p.1)));
            assert forall|k: int| 0 <= k < ps.len() implies #[trigger] mapped[k] == ps[k] by {
                assert(label_operands(i)[k] == ps[k].1);
            }
            assert(mapped =~= ps);
            assert(rw_instr(dm, rm, i) =~= i);
        },
        InstrV::MemoGetEager(l1, l2) => {
            assert(label_operands(i)[0] == l1 && label_operands(i)[1] == l2);
            assert(rw_instr(dm, rm, i) =~= i);
        },
        _ => {
            if label_operands(i).len() > 0 {
                assert(rw_label(dm, rm, label_operands(i)[0]) == label_operands(i)[0]);
            }
            assert(rw_instr(dm, rm, i) =~= i);
        },
    }
}

/// A filter whose predicate accepts every element returns the sequence
/// unchanged.
proof fn lemma_filter_all_true<A>(s: Seq<A>, pred: spec_fn(A) -> bool)
    requires
        forall|j: int| 0 <= j < s.len() ==> pred(#[trigger] s[j]),
    ensures
        s.filter(pred) == s,
    decreases s.len(),
{
    reveal(Seq::filter);
    if s.len() > 0 {
        assert(forall|j: int| 0 <= j < s.drop_last().len() ==> pred(#[trigger] s.drop_last()[j]));
        lemma_filter_all_true(s.drop_last(), pred);
        assert(pred(s[s.len() - 1]));
        assert(s.filter(pred) =~= s);
    }
}

/// Law: relabeling is idempotent.  On a function the pass accepts, its output
/// is again accepted, and relabeling the output reproduces it exactly: the
/// rewritten body and parameters are a fixed point of the pass.
pub proof fn lemma_relabel_idempotent(pv: Seq<ParamV>, bv: Seq<InstrV>)
    requires
        defs_resolved(bv),
        stream_err(label_defs(bv), ref_stream(pv, bv)) is None,
        ref_stream(pv, bv).len() <= usize::MAX,
    ensures
        ({
            let dm = label_defs(bv);
            let st = collect_scan(dm, ref_stream(pv, bv));
            let out = rewrite_body(dm, st.1, st.2, bv);
            let outp = rewrite_params(dm, st.2, pv);
            let dm2 = label_defs(out);
            let st2 = collect_scan(dm2, ref_stream(outp, out));
            &&& defs_resolved(out)
            &&& stream_err(dm2, ref_stream(outp, out)) is None
            &&& rewrite_body(dm2, st2.1, st2.2, out) == out
            &&& rewrite_params(dm2, st2.2, outp) == outp
        }),
{
    let dm = label_defs(bv);
    let stream = ref_stream(pv, bv);
    let init: (int, Set<Id>, Map<int, int>) = (0, Set::empty(), Map::empty());
    let st = collect_scan(dm, stream);
    let rm = st.2;
    let out = rewrite_body(dm, st.1, rm, bv);
    let outp = rewrite_params(dm, rm, pv);
    let dm2 = label_defs(out);
    let stream2 = ref_stream(outp, out);
    let st2 = collect_scan(dm2, stream2);
    let entry = |i: InstrV| rw_entry(dm, st.1, rm, i);
    let rwl = |l: LabelV| rw_label(dm, rm, l);
    lemma_collect_scan_inv(dm, init, stream);
    lemma_stream_ok(dm, stream);
    lemma_collector_establishes_rw_ok(pv, bv);
    assert(forall|p: int| #[trigger] rm.contains_key(p) ==> 0 <= rm[p] <= usize::MAX);

    // The definition map of the output carries each used definition's
    // position over to its canonical name.
    lemma_def_scan_of_rewrite(dm, st.1, rm, bv);

    // The output's reference stream is the input's, renamed label by label.
    lemma_stream_of_rewrite_body(dm, st.1, rm, bv);
    lemma_stream_of_rewrite_params(dm, rm, pv);
    assert(stream2 =~= stream.map_values(rwl));

    // Each renamed stream label resolves in the output's definition map to
    // the same position as the original label did.
    assert forall|j: int|
        0 <= j < stream.len() implies label_rw_ok(dm, rm, #[trigger] stream[j]) && dm2.contains_key(
        rw_label(dm, rm, stream[j]).id(),
    ) && dm2[rw_label(dm, rm, stream[j]).id()] == dm[stream[j].id()] by {
        let p = dm[stream[j].id()];
        assert(rm.contains_key(p));
        let id2 = choose|id2: Id| #[trigger] st.1.contains(id2) && dm.contains_key(id2) && dm[id2]
            == p;
        assert(dm.contains_key(id2) && st.1.contains(id2));
        assert(dm2.contains_key((rm[dm[id2]] as usize)) && dm2[(rm[dm[id2]] as usize)] == dm[id2]);
        assert(rw_label(dm, rm, stream[j]).id() == (rm[p] as usize));
    }

    // The output's definitions are all numeric, so the output passes the
    // indexer; and its stream resolves, so it passes the collector.
    assert forall|j: int|
        0 <= j < out.len() implies (#[trigger] out[j] matches InstrV::LabelDef(l) ==> l
        is Regular) by {
        if out[j] is LabelDef {
            assert(out.contains(out[j]));
            broadcast use vstd::prelude::Seq::lemma_filter_map_contains;

            let t = choose|t: InstrV| #[trigger] bv.contains(t) && entry(t) == Some(out[j]);
            lemma_rw_instr_variant(dm, rm, t);
        }
    }
    assert forall|j: int|
        0 <= j < stream2.len() implies label_err(dm2, #[trigger] stream2[j]) is None by {
        assert(stream2[j] == rwl(stream[j]));
    }
    lemma_stream_ok_converse(dm2, stream2);

    // The collector on the output rebuilds the same canonical map, marking
    // used exactly the canonical names.
    assert(rename_image(rm, init.2) =~= Set::<Id>::empty());
    lemma_collect_scan_renamed(dm, rm, dm2, stream, init, init.1);
    assert(st2.0 == st.0 && st2.2 == rm && st2.1 == rename_image(rm, rm));

    // Rewriting the output under its own collector results changes nothing:
    // every definition is kept, and every label maps to itself.
    assert forall|c: Id| #[trigger] dm2.contains_key(c) implies st2.2.contains_key(dm2[c])
        && (st2.2[dm2[c]] as usize) == c && st2.1.contains(c) by {
        let id = choose|id: Id|
            #[trigger] st.1.contains(id) && dm.contains_key(id) && c == (rm[dm[id]] as usize);
        assert(dm2.contains_key((rm[dm[id]] as usize)) && dm2[(rm[dm[id]] as usize)] == dm[id]);
        assert(dm2[c] == dm[id]);
        assert(rm.contains_key(dm[id]));
        assert(rename_image(rm, rm).contains(c));
    }
    assert forall|j: int|
        0 <= j < out.len() implies keep_instr(st2.1, #[trigger] out[j]) && rw_instr(
        dm2,
        st2.2,
        out[j],
    ) == out[j] by {
        assert(out.contains(out[j]));
        broadcast use vstd::prelude::Seq::lemma_filter_map_contains;

        let t = choose|t: InstrV| #[trigger] bv.contains(t) && entry(t) == Some(out[j]);
        let j0 = choose|j0: int| 0 <= j0 < bv.len() && bv[j0] == t;
        lemma_rw_instr_variant(dm, rm, t);
        if t is LabelDef {
            let l = t->LabelDef_0;
            assert(def_rw_ok(dm, st.1, rm, bv[j0]));
            assert(st.1.contains(l.id()));
            let c = (rm[dm[l.id()]] as usize);
            assert(out[j] == InstrV::LabelDef(LabelV::Regular(c)));
            assert(dm2.contains_key(c) && dm2[c] == dm[l.id()]);
            assert(st2.1.contains(c));
            assert(rw_label(dm2, st2.2, LabelV::Regular(c)) == LabelV::Regular(c));
            lemma_rw_instr_identity(dm2, st2.2, out[j]);
        } else {
            assert(instr_rw_ok(dm, rm, bv[j0]));
            lemma_operands_of_rw_instr(dm, rm, t);
            assert forall|k: int|
                0 <= k < label_operands(out[j]).len() implies rw_label(
                dm2,
                st2.2,
                #[trigger] label_operands(out[j])[k],
            ) == label_operands(out[j])[k] by {
                let op = label_operands(t)[k];
                assert(label_rw_ok(dm, rm, op));
                assert(label_operands(out[j])[k] == rw_label(dm, rm, op));
                let p = dm[op.id()];
                let id2 = choose|id2: Id|
                    #[trigger] st.1.contains(id2) && dm.contains_key(id2) && dm[id2] == p;
                assert(dm2.contains_key((rm[dm[id2]] as usize)) && dm2[(rm[dm[id2]] as usize)]
                    == dm[id2]);
                let c = (rm[p] as usize);
                assert(dm2.contains_key(c) && dm2[c] == p);
                assert(rw_label(dm2, st2.2, LabelV::Regular(c)) == LabelV::Regular(c));
            }
            lemma_rw_instr_identity(dm2, st2.2, out[j]);
        }
    }
    lemma_rewrite_body_split(dm2, st2.1, st2.2, out);
    lemma_filter_all_true(out, |i: InstrV| keep_instr(st2.1, i));
    assert(out.filter(|i: InstrV| keep_instr(st2.1, i)).map_values(
        |i: InstrV| rw_instr(dm2, st2.2, i),
    ) =~= out);
    assert forall|j: int|
        0 <= j < outp.len() implies #[trigger] rw_param(dm2, st2.2, outp[j]) == outp[j] by {
        assert(outp[j] == rw_param(dm, rm, pv[j]));
        if pv[j].default_value is Some {
            assert(param_rw_ok(dm, rm, pv[j]));
            let l = pv[j].default_value->0;
            let p = dm[l.id()];
            let id2 = choose|id2: Id|
                #[trigger] st.1.contains(id2) && dm.contains_key(id2) && dm[id2] == p;
            assert(dm2.contains_key((rm[dm[id2]] as usize)) && dm2[(rm[dm[id2]] as usize)]
                == dm[id2]);
            let c = (rm[p] as usize);
            assert(dm2.contains_key(c) && dm2[c] == p);
            assert(rw_label(dm2, st2.2, LabelV::Regular(c)) == LabelV::Regular(c));
            assert(rw_param(dm2, st2.2, outp[j]) =~= outp[j]);
        } else {
            assert(rw_param(dm2, st2.2, outp[j]) =~= outp[j]);
        }
    }
    assert(rewrite_params(dm2, st2.2, outp) =~= outp);
}

/// A one-label stream folds as a single step, and errs as that label errs.
proof fn lemma_singleton_stream(defs: Map<Id, int>, st: (int, Set<Id>, Map<int, int>), l: LabelV)
    ensures
        collect_scan_from(defs, st, seq![l]) == collect_step(defs, st, l),
        stream_err(defs, seq![l]) == label_err(defs, l),
{
    assert(seq![l].drop_last() =~= Seq::<LabelV>::empty());
    assert(seq![l].last() == l);
    assert(collect_scan_from(defs, st, Seq::<LabelV>::empty()) == st);
    assert(stream_err(defs, Seq::<LabelV>::empty()) is None);
}

} // verus!
