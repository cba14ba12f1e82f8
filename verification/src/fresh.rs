//! Duplicating a block under fresh labels, so copies cannot alias control
//! flow.

use std::collections::HashMap;
use vstd::prelude::*;

use crate::instr::{Instr, InstrV};
use crate::label::{Id, Label, LabelGen, LabelV};
use crate::relabel::defs_as_int;

verus! {

broadcast use vstd::std_specs::hash::group_hash_axioms, vstd::seq_lib::group_seq_properties;

/// How many label definitions a block holds.
pub open spec fn count_defs(block: Seq<InstrV>) -> int
    decreases block.len(),
{
    if block.len() == 0 {
        0
    } else {
        count_defs(block.drop_last()) + if block.last() is LabelDef {
            1int
        } else {
            0int
        }
    }
}

/// A block's definition count splits over concatenation, and is never
/// negative.
pub proof fn lemma_count_defs_concat(a: Seq<InstrV>, b: Seq<InstrV>)
    ensures
        count_defs(a + b) == count_defs(a) + count_defs(b),
        count_defs(b) >= 0,
    decreases b.len(),
{
    if b.len() == 0 {
        assert(a + b =~= a);
        assert(count_defs(b) == 0);
    } else {
        lemma_count_defs_concat(a, b.drop_last());
        assert((a + b).drop_last() =~= a + b.drop_last());
        assert((a + b).last() == b.last());
    }
}

/// One scan over the block: for every label definition met, in order, a fresh
/// identity is drawn from the counter and recorded in the mapping of the
/// definition's flavor — numeric identities and textual identities are never
/// conflated.  Returns the two mappings and the counter after the scan.
pub open spec fn fresh_maps(block: Seq<InstrV>, start: int) -> (
    Map<Id, int>,
    Map<Seq<char>, int>,
    int,
)
    decreases block.len(),
{
    if block.len() == 0 {
        (Map::empty(), Map::empty(), start)
    } else {
        let prev = fresh_maps(block.drop_last(), start);
        match block.last() {
            InstrV::LabelDef(l) => match l {
                LabelV::Regular(id) => (prev.0.insert(id, prev.2), prev.1, prev.2 + 1),
                LabelV::Named(nm) => (prev.0, prev.1.insert(nm, prev.2), prev.2 + 1),
            },
            _ => prev,
        }
    }
}

/// A label under the fresh mappings: replaced by its fresh `Regular` identity
/// when its flavor's mapping knows it, and left unchanged otherwise — a label
/// defined outside the scanned block keeps its identity.
pub open spec fn fresh_label(rm: Map<Id, int>, nm: Map<Seq<char>, int>, l: LabelV) -> LabelV {
    match l {
        LabelV::Regular(id) => if rm.contains_key(id) {
            LabelV::Regular(rm[id] as usize)
        } else {
            l
        },
        LabelV::Named(s) => if nm.contains_key(s) {
            LabelV::Regular(nm[s] as usize)
        } else {
            l
        },
    }
}

/// An instruction with every label — definitions included — renamed under the
/// fresh mappings.
pub open spec fn fresh_instr(rm: Map<Id, int>, nm: Map<Seq<char>, int>, i: InstrV) -> InstrV {
    match i {
        InstrV::Plain(x) => InstrV::Plain(x),
        InstrV::LabelDef(l) => InstrV::LabelDef(fresh_label(rm, nm, l)),
        InstrV::Jmp(l) => InstrV::Jmp(fresh_label(rm, nm, l)),
        InstrV::JmpNS(l) => InstrV::JmpNS(fresh_label(rm, nm, l)),
        InstrV::JmpZ(l) => InstrV::JmpZ(fresh_label(rm, nm, l)),
        InstrV::JmpNZ(l) => InstrV::JmpNZ(fresh_label(rm, nm, l)),
        InstrV::IterInit(it, l) => InstrV::IterInit(it, fresh_label(rm, nm, l)),
        InstrV::IterNext(it, l) => InstrV::IterNext(it, fresh_label(rm, nm, l)),
        InstrV::MemoGet(l) => InstrV::MemoGet(fresh_label(rm, nm, l)),
        InstrV::MemoGetEager(l1, l2) => InstrV::MemoGetEager(
            fresh_label(rm, nm, l1),
            fresh_label(rm, nm, l2),
        ),
        InstrV::Call(ol) => InstrV::Call(
            match ol {
                Some(l) => Some(fresh_label(rm, nm, l)),
                None => None,
            },
        ),
        InstrV::Switch(ls) => InstrV::Switch(ls.map_values(|l: LabelV| fresh_label(rm, nm, l))),
        InstrV::SSwitch(ps) => InstrV::SSwitch(
            ps.map_values(|p: (Seq<char>, LabelV)| (p.0, fresh_label(rm, nm, p.1))),
        ),
    }
}

/// The whole block renamed under the fresh mappings, in order.
pub open spec fn fresh_block(rm: Map<Id, int>, nm: Map<Seq<char>, int>, block: Seq<InstrV>) -> Seq<
    InstrV,
> {
    block.map_values(|i: InstrV| fresh_instr(rm, nm, i))
}

/// Under empty mappings renaming changes nothing.
proof fn lemma_fresh_instr_noop(i: InstrV)
    ensures
        fresh_instr(Map::empty(), Map::empty(), i) == i,
{
    let rm = Map::<Id, int>::empty();
    let nm = Map::<Seq<char>, int>::empty();
    match i {
        InstrV::Switch(ls) => {
            assert(ls.map_values(|l: LabelV| fresh_label(rm, nm, l)) =~= ls);
            assert(fresh_instr(rm, nm, i) =~= i);
        },
        InstrV::SSwitch(ps) => {
            assert(ps.map_values(|p: (Seq<char>, LabelV)| (p.0, fresh_label(rm, nm, p.1))) =~= ps);
            assert(fresh_instr(rm, nm, i) =~= i);
        },
        _ => {
            assert(fresh_instr(rm, nm, i) =~= i);
        },
    }
}

/// Cloning a block with no label definitions is a no-op: no fresh identity is
/// drawn and the content is unchanged.
pub proof fn lemma_clone_noop(block: Seq<InstrV>, start: int)
    requires
        count_defs(block) == 0,
    ensures
        fresh_maps(block, start).0 == Map::<Id, int>::empty(),
        fresh_maps(block, start).1 == Map::<Seq<char>, int>::empty(),
        fresh_maps(block, start).2 == start,
        fresh_block(fresh_maps(block, start).0, fresh_maps(block, start).1, block) == block,
    decreases block.len(),
{
    if block.len() == 0 {
        assert(fresh_block(Map::empty(), Map::empty(), block) =~= block);
    } else {
        lemma_count_defs_concat(block.drop_last(), seq![block.last()]);
        assert(block.drop_last() + seq![block.last()] =~= block);
        assert(seq![block.last()].drop_last() =~= Seq::<InstrV>::empty());
        assert(count_defs(seq![block.last()]) == if block.last() is LabelDef {
            1int
        } else {
            0int
        });
        lemma_count_defs_concat(Seq::<InstrV>::empty(), block.drop_last());
        lemma_clone_noop(block.drop_last(), start);
        assert(!(block.last() is LabelDef));
        assert forall|j: int| 0 <= j < block.len() implies #[trigger] fresh_block(
            Map::empty(),
            Map::empty(),
            block,
        )[j] == block[j] by {
            lemma_fresh_instr_noop(block[j]);
        }
        assert(fresh_block(Map::empty(), Map::empty(), block) =~= block);
    }
}

/// Every fresh identity drawn while scanning a block lies in
/// `[start, start + count_defs(block))`: fresh identities never collide with
/// any identity the generator issued before the scan.
pub proof fn lemma_fresh_ids_in_range(block: Seq<InstrV>, start: int)
    ensures
        ({
            let fm = fresh_maps(block, start);
            &&& fm.2 == start + count_defs(block)
            &&& forall|id: Id| #[trigger] fm.0.contains_key(id) ==> start <= fm.0[id] < fm.2
            &&& forall|s: Seq<char>| #[trigger] fm.1.contains_key(s) ==> start <= fm.1[s] < fm.2
        }),
    decreases block.len(),
{
    if block.len() > 0 {
        lemma_fresh_ids_in_range(block.drop_last(), start);
        let prev = fresh_maps(block.drop_last(), start);
        let fm = fresh_maps(block, start);
        lemma_count_defs_concat(Seq::<InstrV>::empty(), block.drop_last());
        match block.last() {
            InstrV::LabelDef(l) => {
                assert(fm.2 == prev.2 + 1);
                assert forall|id: Id| #[trigger] fm.0.contains_key(id) implies start <= fm.0[id]
                    < fm.2 by {
                    if !(l matches LabelV::Regular(r) && r == id) {
                        assert(prev.0.contains_key(id));
                    }
                }
                assert forall|nm: Seq<char>| #[trigger] fm.1.contains_key(nm) implies start
                    <= fm.1[nm] < fm.2 by {
                    if !(l matches LabelV::Named(n) && n == nm) {
                        assert(prev.1.contains_key(nm));
                    }
                }
            },
            _ => {},
        }
    }
}

/// The mapping a keyed list of fresh identities stands for; a later entry for
/// the same key overwrites an earlier one.
pub open spec fn assoc_map(s: Seq<(String, usize)>) -> Map<Seq<char>, int>
    decreases s.len(),
{
    if s.len() == 0 {
        Map::empty()
    } else {
        assoc_map(s.drop_last()).insert(s.last().0@, s.last().1 as int)
    }
}

/// The latest entry for a key decides its mapping.
proof fn lemma_assoc_last_match(s: Seq<(String, usize)>, j: int, key: Seq<char>)
    requires
        0 <= j < s.len(),
        s[j].0@ == key,
        forall|i: int| j < i < s.len() ==> (#[trigger] s[i]).0@ != key,
    ensures
        assoc_map(s).contains_key(key),
        assoc_map(s)[key] == s[j].1 as int,
    decreases s.len(),
{
    if j < s.len() - 1 {
        lemma_assoc_last_match(s.drop_last(), j, key);
        assert(s.last().0@ != key);
    }
}

/// A key no entry carries is absent from the mapping.
proof fn lemma_assoc_no_match(s: Seq<(String, usize)>, key: Seq<char>)
    requires
        forall|i: int| 0 <= i < s.len() ==> (#[trigger] s[i]).0@ != key,
    ensures
        !assoc_map(s).contains_key(key),
    decreases s.len(),
{
    if s.len() > 0 {
        lemma_assoc_no_match(s.drop_last(), key);
        assert(s.last().0@ != key);
    }
}

/// Looks a textual identity up in the keyed list; the latest entry wins.
fn assoc_get(v: &Vec<(String, usize)>, key: &String) -> (r: Option<usize>)
    ensures
        r matches Some(f) ==> assoc_map(v@).contains_key(key@) && assoc_map(v@)[key@] == f as int,
        r is None ==> !assoc_map(v@).contains_key(key@),
{
    let mut j: usize = v.len();
    while j > 0
        invariant
            j <= v.len(),
            forall|i: int| j <= i < v@.len() ==> (#[trigger] v@[i]).0@ != key@,
        decreases j,
    {
        j = j - 1;
        let entry = &v[j];
        if entry.0 == *key {
            proof {
                lemma_assoc_last_match(v@, j as int, key@);
            }
            return Some(entry.1);
        }
    }
    proof {
        lemma_assoc_no_match(v@, key@);
    }
    None
}

/// Renames one label through the flavor-matched fresh mapping, leaving
/// unmapped labels — those defined outside the block — unchanged.
fn fresh_lookup(regular: &HashMap<Id, usize>, named: &Vec<(String, usize)>, l: &Label) -> (r: Label)
    ensures
        r.deep_view() == fresh_label(defs_as_int(regular@), assoc_map(named@), l.deep_view()),
{
    match l {
        Label::Regular(id) => match regular.get(id) {
            Some(f) => Label::Regular(*f),
            None => Label::Regular(*id),
        },
        Label::Named(s) => match assoc_get(named, s) {
            Some(f) => Label::Regular(f),
            None => Label::Named(s.clone()),
        },
    }
}

/// Rebuilds one instruction with every label renamed through the fresh
/// mappings.
fn fresh_instr_exec(regular: &HashMap<Id, usize>, named: &Vec<(String, usize)>, i: &Instr) -> (r:
    Instr)
    ensures
        r.deep_view() == fresh_instr(defs_as_int(regular@), assoc_map(named@), i.deep_view()),
{
    let ghost rm = defs_as_int(regular@);
    let ghost nm = assoc_map(named@);
    let ghost iv = i.deep_view();
    match i {
        Instr::Plain(x) => Instr::Plain(*x),
        Instr::LabelDef(l) => Instr::LabelDef(fresh_lookup(regular, named, l)),
        Instr::Jmp(l) => Instr::Jmp(fresh_lookup(regular, named, l)),
        Instr::JmpNS(l) => Instr::JmpNS(fresh_lookup(regular, named, l)),
        Instr::JmpZ(l) => Instr::JmpZ(fresh_lookup(regular, named, l)),
        Instr::JmpNZ(l) => Instr::JmpNZ(fresh_lookup(regular, named, l)),
        Instr::IterInit(it, l) => Instr::IterInit(*it, fresh_lookup(regular, named, l)),
        Instr::IterNext(it, l) => Instr::IterNext(*it, fresh_lookup(regular, named, l)),
        Instr::MemoGet(l) => Instr::MemoGet(fresh_lookup(regular, named, l)),
        Instr::MemoGetEager(l1, l2) => Instr::MemoGetEager(
            fresh_lookup(regular, named, l1),
            fresh_lookup(regular, named, l2),
        ),
        Instr::Call(ol) => match ol {
            None => Instr::Call(None),
            Some(l) => Instr::Call(Some(fresh_lookup(regular, named, l))),
        },
        Instr::Switch(ls) => {
            let ghost lsv = ls.deep_view();
            let mut out: Vec<Label> = Vec::new();
            let mut k: usize = 0;
            proof {
                assert(out.deep_view() =~= lsv.take(0).map_values(
                    |l: LabelV| fresh_label(rm, nm, l),
                ));
            }
            while k < ls.len()
                invariant
                    k <= ls.len(),
                    lsv == ls.deep_view(),
                    lsv.len() == ls@.len(),
                    rm == defs_as_int(regular@),
                    nm == assoc_map(named@),
                    out.deep_view() == lsv.take(k as int).map_values(
                        |l: LabelV| fresh_label(rm, nm, l),
                    ),
                decreases ls.len() - k,
            {
                let nl = fresh_lookup(regular, named, &ls[k]);
                proof {
                    assert(nl.deep_view() == fresh_label(rm, nm, lsv[k as int]));
                }
                let ghost pre = out.deep_view();
                out.push(nl);
                k = k + 1;
                proof {
                    assert(out@.len() == pre.len() + 1);
                    assert(out.deep_view().len() == k as int);
                    assert(forall|j: int| 0 <= j < k - 1 ==> #[trigger] out.deep_view()[j] == pre[j]);
                    assert(out.deep_view() =~= lsv.take(k as int).map_values(
                        |l: LabelV| fresh_label(rm, nm, l),
                    ));
                }
            }
            let r = Instr::Switch(out);
            proof {
                assert(lsv.take(k as int) =~= lsv);
                assert(r.deep_view() =~= fresh_instr(rm, nm, iv));
            }
            r
        },
        Instr::SSwitch(ps) => {
            let ghost psv = ps.deep_view();
            let mut out: Vec<(String, Label)> = Vec::new();
            let mut k: usize = 0;
            proof {
                assert(out.deep_view() =~= psv.take(0).map_values(
                    |p: (Seq<char>, LabelV)| (p.0, fresh_label(rm, nm, p.1)),
                ));
            }
            while k < ps.len()
                invariant
                    k <= ps.len(),
                    psv == ps.deep_view(),
                    psv.len() == ps@.len(),
                    rm == defs_as_int(regular@),
                    nm == assoc_map(named@),
                    out.deep_view() == psv.take(k as int).map_values(
                        |p: (Seq<char>, LabelV)| (p.0, fresh_label(rm, nm, p.1)),
                    ),
                decreases ps.len() - k,
            {
                proof {
                    assert(psv[k as int] == ps@[k as int].deep_view());
                }
                let name = ps[k].0.clone();
                let lab = fresh_lookup(regular, named, &ps[k].1);
                proof {
                    assert(lab.deep_view() == fresh_label(rm, nm, psv[k as int].1));
                    assert(name@ == psv[k as int].0);
                }
                let ghost pre = out.deep_view();
                out.push((name, lab));
                k = k + 1;
                proof {
                    assert(out@.len() == pre.len() + 1);
                    assert(out.deep_view().len() == k as int);
                    assert(forall|j: int| 0 <= j < k - 1 ==> #[trigger] out.deep_view()[j] == pre[j]);
                    assert(out.deep_view()[k - 1] == (psv[k - 1].0, fresh_label(rm, nm, psv[
                        k - 1].1)));
                    assert(out.deep_view() =~= psv.take(k as int).map_values(
                        |p: (Seq<char>, LabelV)| (p.0, fresh_label(rm, nm, p.1)),
                    ));
                }
            }
            let r = Instr::SSwitch(out);
            proof {
                assert(psv.take(k as int) =~= psv);
                assert(r.deep_view() =~= fresh_instr(rm, nm, iv));
            }
            r
        },
    }
}

/// Rewrites `block` in place into an alpha-renamed duplicate: every label
/// definition receives a brand-new `Regular` identity from `gen`, one per
/// definition in scan order, and every in-block reference follows its
/// definition's renaming; references to labels defined outside the block are
/// left untouched.  A block without label definitions is returned unchanged
/// and draws no identity.
pub fn clone_with_fresh_regular_labels(gen: &mut LabelGen, block: &mut Vec<Instr>)
    requires
        old(gen).next + count_defs(old(block).deep_view()) <= usize::MAX,
    ensures
        ({
            let bv = old(block).deep_view();
            let fm = fresh_maps(bv, old(gen).next as int);
            &&& final(gen).next == old(gen).next + count_defs(bv)
            &&& final(block).deep_view() == fresh_block(fm.0, fm.1, bv)
        }),
{
    let ghost bv = block.deep_view();
    let ghost start = gen.next as int;
    let mut regular: HashMap<Id, usize> = HashMap::new();
    let mut named: Vec<(String, usize)> = Vec::new();
    proof {
        lemma_count_defs_concat(bv.take(0), bv.skip(0));
        assert(bv.take(0) + bv.skip(0) =~= bv);
        assert(bv.take(0) =~= Seq::<InstrV>::empty());
        assert(defs_as_int(regular@) =~= fresh_maps(bv.take(0), start).0);
        assert(assoc_map(named@) =~= fresh_maps(bv.take(0), start).1);
    }
    let mut j: usize = 0;
    while j < block.len()
        invariant
            j <= block.len(),
            bv == block.deep_view(),
            bv.len() == block@.len(),
            start + count_defs(bv) <= usize::MAX,
            gen.next as int == fresh_maps(bv.take(j as int), start).2,
            fresh_maps(bv.take(j as int), start).2 == start + count_defs(bv.take(j as int)),
            count_defs(bv.take(j as int)) + count_defs(bv.skip(j as int)) == count_defs(bv),
            count_defs(bv.skip(j as int)) >= 0,
            defs_as_int(regular@) == fresh_maps(bv.take(j as int), start).0,
            assoc_map(named@) == fresh_maps(bv.take(j as int), start).1,
        decreases block.len() - j,
    {
        let ghost prefix = bv.take(j as int);
        proof {
            assert(bv.take(j + 1).drop_last() =~= prefix);
            assert(bv.take(j + 1).last() == bv[j as int]);
            lemma_count_defs_concat(bv.take(j + 1), bv.skip(j + 1));
            assert(bv.take(j + 1) + bv.skip(j + 1) =~= bv);
            lemma_count_defs_concat(prefix, seq![bv[j as int]]);
            assert(prefix + seq![bv[j as int]] =~= bv.take(j + 1));
            assert(seq![bv[j as int]].drop_last() =~= Seq::<InstrV>::empty());
        }
        match &block[j] {
            Instr::LabelDef(l) => {
                let fl = gen.next_regular();
                let f: usize = match fl {
                    Label::Regular(f) => f,
                    Label::Named(_) => vstd::pervasive::unreached(),
                };
                match l {
                    Label::Regular(id) => {
                        regular.insert(*id, f);
                        proof {
                            assert(defs_as_int(regular@) =~= fresh_maps(bv.take(j + 1), start).0);
                        }
                    },
                    Label::Named(s) => {
                        let ghost pre = named@;
                        named.push((s.clone(), f));
                        proof {
                            assert(named@.drop_last() =~= pre);
                            assert(named@.last() == (named@[named@.len() - 1]));
                            assert(assoc_map(named@) =~= fresh_maps(bv.take(j + 1), start).1);
                        }
                    },
                }
            },
            _ => {},
        }
        j = j + 1;
    }
    proof {
        assert(bv.take(j as int) =~= bv);
    }
    let ghost fm = fresh_maps(bv, start);
    if regular.is_empty() && named.len() == 0 {
        proof {
            assert(regular@.dom() =~= Set::<Id>::empty());
            assert(defs_as_int(regular@) =~= Map::<Id, int>::empty());
            assert(named@ =~= Seq::<(String, usize)>::empty());
            assert forall|k: int| 0 <= k < bv.len() implies #[trigger] fresh_block(
                fm.0,
                fm.1,
                bv,
            )[k] == bv[k] by {
                lemma_fresh_instr_noop(bv[k]);
            }
            assert(fresh_block(fm.0, fm.1, bv) =~= bv);
        }
        return ;
    }
    let mut out: Vec<Instr> = Vec::new();
    let mut k: usize = 0;
    proof {
        assert(out.deep_view() =~= bv.take(0).map_values(|i: InstrV| fresh_instr(fm.0, fm.1, i)));
    }
    while k < block.len()
        invariant
            k <= block.len(),
            bv == block.deep_view(),
            bv.len() == block@.len(),
            fm == fresh_maps(bv, start),
            defs_as_int(regular@) == fm.0,
            assoc_map(named@) == fm.1,
            out.deep_view() == bv.take(k as int).map_values(|i: InstrV| fresh_instr(fm.0, fm.1, i)),
        decreases block.len() - k,
    {
        let ni = fresh_instr_exec(&regular, &named, &block[k]);
        proof {
            assert(ni.deep_view() == fresh_instr(fm.0, fm.1, bv[k as int]));
        }
        let ghost pre = out.deep_view();
        out.push(ni);
        k = k + 1;
        proof {
            assert(out@.len() == pre.len() + 1);
            assert(out.deep_view().len() == k as int);
            assert(forall|j2: int| 0 <= j2 < k - 1 ==> #[trigger] out.deep_view()[j2] == pre[j2]);
            assert(out.deep_view() =~= bv.take(k as int).map_values(
                |i: InstrV| fresh_instr(fm.0, fm.1, i),
            ));
        }
    }
    proof {
        assert(bv.take(k as int) =~= bv);
    }
    *block = out;
}

} // verus!
