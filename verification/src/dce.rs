use crate::blocks::{block_views, BBFun, BasicBlock, BlockModel};
use crate::ir::{make_tombstone, name_views, spec_is_tombstone, Code, Instr};
use vstd::prelude::*;

verus! {

/// What the dead-code scan reads of one instruction: a definition with its
/// destination and the names it uses, or a bare use of names. A tombstone is
/// a use of nothing.
#[verifier::ext_equal]
pub ghost enum DceInstr {
    Def { dest: Seq<char>, uses: Seq<Seq<char>> },
    Use { uses: Seq<Seq<char>> },
}

/// What the dead-code scan reads of one block.
#[verifier::ext_equal]
pub ghost struct DceBlock {
    pub live: bool,
    pub instrs: Seq<DceInstr>,
}

/// The dead-code view of a code item: a constant defines its destination and
/// uses nothing; a value instruction defines its destination and uses its
/// arguments; an effect uses its arguments.
pub open spec fn dce_instr(c: Code) -> DceInstr {
    match c {
        Code::Instruction(Instr::Constant { dest, .. }) => DceInstr::Def {
            dest: dest@,
            uses: Seq::empty(),
        },
        Code::Instruction(Instr::Value { dest, args, .. }) => DceInstr::Def {
            dest: dest@,
            uses: name_views(args@),
        },
        Code::Instruction(Instr::Effect { args, .. }) => DceInstr::Use {
            uses: name_views(args@),
        },
        Code::Label { .. } => DceInstr::Use { uses: Seq::empty() },
    }
}

/// The dead-code view of one block.
pub open spec fn dce_block(b: BlockModel) -> DceBlock {
    DceBlock { live: b.live, instrs: b.instrs.map_values(|c: Code| dce_instr(c)) }
}

/// The dead-code view of a block sequence.
pub open spec fn dce_view(bs: Seq<BlockModel>) -> Seq<DceBlock> {
    bs.map_values(|b: BlockModel| dce_block(b))
}

/// A pending definition: a variable name bound to the position (block index,
/// instruction index) of its most recent, not-yet-used definition. The
/// bindings form an association list looked up by first occurrence.
pub ghost struct DceState {
    pub defs: Seq<(Seq<char>, (int, int))>,
    pub dead: Seq<(int, int)>,
}

/// Remove the first binding of a key from an association list.
pub open spec fn al_remove(m: Seq<(Seq<char>, (int, int))>, k: Seq<char>) -> Seq<
    (Seq<char>, (int, int)),
>
    decreases m.len(),
{
    if m.len() == 0 {
        Seq::empty()
    } else if m.first().0 == k {
        m.drop_first()
    } else {
        seq![m.first()] + al_remove(m.drop_first(), k)
    }
}

/// The first binding of a key in an association list.
pub open spec fn al_get(m: Seq<(Seq<char>, (int, int))>, k: Seq<char>) -> Option<(int, int)>
    decreases m.len(),
{
    if m.len() == 0 {
        None
    } else if m.first().0 == k {
        Some(m.first().1)
    } else {
        al_get(m.drop_first(), k)
    }
}

/// Bind a key in an association list, replacing its first binding in place or
/// appending a new one.
pub open spec fn al_set(m: Seq<(Seq<char>, (int, int))>, k: Seq<char>, v: (int, int)) -> Seq<
    (Seq<char>, (int, int)),
>
    decreases m.len(),
{
    if m.len() == 0 {
        seq![(k, v)]
    } else if m.first().0 == k {
        seq![(k, v)] + m.drop_first()
    } else {
        seq![m.first()] + al_set(m.drop_first(), k, v)
    }
}

/// Remove the bindings of every used name: a use consumes the pending
/// definition it reads.
pub open spec fn al_remove_all(m: Seq<(Seq<char>, (int, int))>, uses: Seq<Seq<char>>) -> Seq<
    (Seq<char>, (int, int)),
>
    decreases uses.len(),
{
    if uses.len() == 0 {
        m
    } else {
        al_remove_all(al_remove(m, uses.first()), uses.drop_first())
    }
}

/// One step of the dead-code scan at position (bi, ii). A use clears the
/// pending definitions of the names it reads. A definition first clears the
/// pending definitions of its argument names, then queues any still-pending
/// earlier definition of its destination as dead (overwritten before use) and
/// becomes the pending definition of that destination.
pub open spec fn dce_step(st: DceState, bi: int, ii: int, di: DceInstr) -> DceState {
    match di {
        DceInstr::Use { uses } => DceState { defs: al_remove_all(st.defs, uses), dead: st.dead },
        DceInstr::Def { dest, uses } => {
            let defs1 = al_remove_all(st.defs, uses);
            let dead1 = match al_get(defs1, dest) {
                Some(p) => st.dead.push(p),
                None => st.dead,
            };
            DceState { defs: al_set(defs1, dest, (bi, ii)), dead: dead1 }
        },
    }
}

/// The dead-code scan over one block's instructions from position ii on.
pub open spec fn dce_scan_block(st: DceState, bi: int, instrs: Seq<DceInstr>, ii: int) -> DceState
    decreases instrs.len() - ii,
{
    if ii < 0 || ii >= instrs.len() {
        st
    } else {
        dce_scan_block(dce_step(st, bi, ii, instrs[ii]), bi, instrs, ii + 1)
    }
}

/// The dead-code scan over the live blocks from block bi on.
pub open spec fn dce_scan_blocks(m: Seq<DceBlock>, st: DceState, bi: int) -> DceState
    decreases m.len() - bi,
{
    if bi < 0 || bi >= m.len() {
        st
    } else {
        let st1 = if m[bi].live {
            dce_scan_block(st, bi, m[bi].instrs, 0)
        } else {
            st
        };
        dce_scan_blocks(m, st1, bi + 1)
    }
}

/// The positions one full scan finds dead: the definitions overwritten before
/// any use, then every definition still pending at the end of the function
/// (defined but never used afterwards).
pub open spec fn scan_dead(m: Seq<DceBlock>) -> Seq<(int, int)> {
    let st = dce_scan_blocks(m, DceState { defs: Seq::empty(), dead: Seq::empty() }, 0);
    st.dead + st.defs.map_values(|e: (Seq<char>, (int, int))| e.1)
}

/// One block with the given positions replaced by tombstones.
pub open spec fn tomb_block(b: DceBlock, bi: int, d: Seq<(int, int)>) -> DceBlock {
    DceBlock {
        live: b.live,
        instrs: Seq::new(
            b.instrs.len(),
            |ii: int|
                if d.contains((bi, ii)) {
                    DceInstr::Use { uses: Seq::empty() }
                } else {
                    b.instrs[ii]
                },
        ),
    }
}

/// A block sequence with the given positions replaced by tombstones.
pub open spec fn tomb_view(m: Seq<DceBlock>, d: Seq<(int, int)>) -> Seq<DceBlock> {
    Seq::new(m.len(), |bi: int| tomb_block(m[bi], bi, d))
}

/// Whether a position names a definition inside a live in-range block.
pub open spec fn pos_ok(m: Seq<DceBlock>, p: (int, int)) -> bool {
    &&& 0 <= p.0 < m.len()
    &&& m[p.0].live
    &&& 0 <= p.1 < m[p.0].instrs.len()
    &&& m[p.0].instrs[p.1] matches DceInstr::Def { .. }
}

/// Whether every position a scan state holds names a live definition.
pub open spec fn state_ok(m: Seq<DceBlock>, st: DceState) -> bool {
    &&& forall|k: int| 0 <= k < st.defs.len() ==> pos_ok(m, (#[trigger] st.defs[k]).1)
    &&& forall|k: int| 0 <= k < st.dead.len() ==> pos_ok(m, #[trigger] st.dead[k])
}

/// The number of definitions in a sequence of scanned instructions.
pub open spec fn def_count_instrs(s: Seq<DceInstr>) -> nat
    decreases s.len(),
{
    if s.len() == 0 {
        0
    } else {
        (if s.first() matches DceInstr::Def { .. } {
            1nat
        } else {
            0
        }) + def_count_instrs(s.drop_first())
    }
}

/// The number of definitions in the live blocks.
pub open spec fn live_def_count(m: Seq<DceBlock>) -> nat
    decreases m.len(),
{
    if m.len() == 0 {
        0
    } else {
        (if m.first().live {
            def_count_instrs(m.first().instrs)
        } else {
            0
        }) + live_def_count(m.drop_first())
    }
}

} // verus!

verus! {

proof fn lemma_al_remove_ok(m: Seq<DceBlock>, dm: Seq<(Seq<char>, (int, int))>, k: Seq<char>)
    requires
        forall|j: int| 0 <= j < dm.len() ==> pos_ok(m, (#[trigger] dm[j]).1),
    ensures
        forall|j: int|
            0 <= j < al_remove(dm, k).len() ==> pos_ok(m, (#[trigger] al_remove(dm, k)[j]).1),
    decreases dm.len(),
{
    if dm.len() == 0 {
    } else if dm.first().0 == k {
        assert(forall|j: int| 0 <= j < dm.drop_first().len() ==> dm.drop_first()[j] == dm[j + 1]);
    } else {
        assert(forall|j: int| 0 <= j < dm.drop_first().len() ==> dm.drop_first()[j] == dm[j + 1]);
        lemma_al_remove_ok(m, dm.drop_first(), k);
        let r = al_remove(dm, k);
        assert(forall|j: int|
            1 <= j < r.len() ==> r[j] == al_remove(dm.drop_first(), k)[j - 1]);
    }
}

proof fn lemma_al_remove_all_ok(
    m: Seq<DceBlock>,
    dm: Seq<(Seq<char>, (int, int))>,
    uses: Seq<Seq<char>>,
)
    requires
        forall|j: int| 0 <= j < dm.len() ==> pos_ok(m, (#[trigger] dm[j]).1),
    ensures
        forall|j: int|
            0 <= j < al_remove_all(dm, uses).len() ==> pos_ok(
                m,
                (#[trigger] al_remove_all(dm, uses)[j]).1,
            ),
    decreases uses.len(),
{
    if uses.len() > 0 {
        lemma_al_remove_ok(m, dm, uses.first());
        lemma_al_remove_all_ok(m, al_remove(dm, uses.first()), uses.drop_first());
        assert(al_remove_all(dm, uses) == al_remove_all(
            al_remove(dm, uses.first()),
            uses.drop_first(),
        ));
    } else {
        assert(al_remove_all(dm, uses) == dm);
    }
}

proof fn lemma_al_set_ok(
    m: Seq<DceBlock>,
    dm: Seq<(Seq<char>, (int, int))>,
    k: Seq<char>,
    v: (int, int),
)
    requires
        forall|j: int| 0 <= j < dm.len() ==> pos_ok(m, (#[trigger] dm[j]).1),
        pos_ok(m, v),
    ensures
        forall|j: int|
            0 <= j < al_set(dm, k, v).len() ==> pos_ok(m, (#[trigger] al_set(dm, k, v)[j]).1),
    decreases dm.len(),
{
    if dm.len() == 0 {
    } else if dm.first().0 == k {
        assert(forall|j: int| 0 <= j < dm.drop_first().len() ==> dm.drop_first()[j] == dm[j + 1]);
    } else {
        assert(forall|j: int| 0 <= j < dm.drop_first().len() ==> dm.drop_first()[j] == dm[j + 1]);
        lemma_al_set_ok(m, dm.drop_first(), k, v);
        let r = al_set(dm, k, v);
        assert(forall|j: int| 1 <= j < r.len() ==> r[j] == al_set(dm.drop_first(), k, v)[j - 1]);
    }
}

proof fn lemma_al_get_ok(m: Seq<DceBlock>, dm: Seq<(Seq<char>, (int, int))>, k: Seq<char>)
    requires
        forall|j: int| 0 <= j < dm.len() ==> pos_ok(m, (#[trigger] dm[j]).1),
        al_get(dm, k) is Some,
    ensures
        pos_ok(m, al_get(dm, k)->Some_0),
    decreases dm.len(),
{
    if dm.len() == 0 {
    } else if dm.first().0 == k {
    } else {
        assert(forall|j: int| 0 <= j < dm.drop_first().len() ==> dm.drop_first()[j] == dm[j + 1]);
        lemma_al_get_ok(m, dm.drop_first(), k);
    }
}

proof fn lemma_step_ok(m: Seq<DceBlock>, st: DceState, bi: int, ii: int)
    requires
        state_ok(m, st),
        0 <= bi < m.len(),
        m[bi].live,
        0 <= ii < m[bi].instrs.len(),
    ensures
        state_ok(m, dce_step(st, bi, ii, m[bi].instrs[ii])),
{
    match m[bi].instrs[ii] {
        DceInstr::Use { uses } => {
            lemma_al_remove_all_ok(m, st.defs, uses);
        },
        DceInstr::Def { dest, uses } => {
            lemma_al_remove_all_ok(m, st.defs, uses);
            let defs1 = al_remove_all(st.defs, uses);
            if al_get(defs1, dest) is Some {
                lemma_al_get_ok(m, defs1, dest);
            }
            assert(pos_ok(m, (bi, ii)));
            lemma_al_set_ok(m, defs1, dest, (bi, ii));
        },
    }
}

proof fn lemma_scan_block_ok(m: Seq<DceBlock>, st: DceState, bi: int, ii: int)
    requires
        state_ok(m, st),
        0 <= bi < m.len(),
        m[bi].live,
        0 <= ii,
    ensures
        state_ok(m, dce_scan_block(st, bi, m[bi].instrs, ii)),
    decreases m[bi].instrs.len() - ii,
{
    if ii < m[bi].instrs.len() {
        lemma_step_ok(m, st, bi, ii);
        lemma_scan_block_ok(m, dce_step(st, bi, ii, m[bi].instrs[ii]), bi, ii + 1);
    }
}

proof fn lemma_scan_blocks_ok(m: Seq<DceBlock>, st: DceState, bi: int)
    requires
        state_ok(m, st),
        0 <= bi,
    ensures
        state_ok(m, dce_scan_blocks(m, st, bi)),
    decreases m.len() - bi,
{
    if bi < m.len() {
        if m[bi].live {
            lemma_scan_block_ok(m, st, bi, 0);
            lemma_scan_blocks_ok(m, dce_scan_block(st, bi, m[bi].instrs, 0), bi + 1);
        } else {
            lemma_scan_blocks_ok(m, st, bi + 1);
        }
    }
}

/// Every position a full scan finds dead names a definition in a live block.
proof fn lemma_scan_dead_ok(m: Seq<DceBlock>)
    ensures
        forall|j: int| 0 <= j < scan_dead(m).len() ==> pos_ok(m, #[trigger] scan_dead(m)[j]),
{
    let init = DceState { defs: Seq::empty(), dead: Seq::empty() };
    lemma_scan_blocks_ok(m, init, 0);
    let st = dce_scan_blocks(m, init, 0);
    assert forall|j: int| 0 <= j < scan_dead(m).len() implies pos_ok(
        m,
        #[trigger] scan_dead(m)[j],
    ) by {
        if j < st.dead.len() {
            assert(scan_dead(m)[j] == st.dead[j]);
        } else {
            let vals = st.defs.map_values(|e: (Seq<char>, (int, int))| e.1);
            assert(scan_dead(m)[j] == vals[j - st.dead.len()]);
            assert(vals[j - st.dead.len()] == st.defs[j - st.dead.len()].1);
        }
    }
}

proof fn lemma_def_count_le(s1: Seq<DceInstr>, s2: Seq<DceInstr>)
    requires
        s1.len() == s2.len(),
        forall|j: int|
            0 <= j < s1.len() && ((#[trigger] s2[j]) matches DceInstr::Def { .. }) ==> s2[j] == s1[j],
    ensures
        def_count_instrs(s2) <= def_count_instrs(s1),
    decreases s1.len(),
{
    if s1.len() > 0 {
        assert(forall|j: int|
            0 <= j < s1.drop_first().len() ==> s1.drop_first()[j] == s1[j + 1]
                && s2.drop_first()[j] == s2[j + 1]);
        lemma_def_count_le(s1.drop_first(), s2.drop_first());
    }
}

proof fn lemma_def_count_lt(s1: Seq<DceInstr>, s2: Seq<DceInstr>, w: int)
    requires
        s1.len() == s2.len(),
        forall|j: int|
            0 <= j < s1.len() && ((#[trigger] s2[j]) matches DceInstr::Def { .. }) ==> s2[j] == s1[j],
        0 <= w < s1.len(),
        s1[w] matches DceInstr::Def { .. },
        !(s2[w] matches DceInstr::Def { .. }),
    ensures
        def_count_instrs(s2) < def_count_instrs(s1),
    decreases s1.len(),
{
    assert(forall|j: int|
        0 <= j < s1.drop_first().len() ==> s1.drop_first()[j] == s1[j + 1] && s2.drop_first()[j]
            == s2[j + 1]);
    if w == 0 {
        lemma_def_count_le(s1.drop_first(), s2.drop_first());
    } else {
        lemma_def_count_lt(s1.drop_first(), s2.drop_first(), w - 1);
    }
}

proof fn lemma_live_count_le(m1: Seq<DceBlock>, m2: Seq<DceBlock>)
    requires
        m1.len() == m2.len(),
        forall|i: int|
            0 <= i < m1.len() ==> (#[trigger] m2[i]).live == m1[i].live && m2[i].instrs.len()
                == m1[i].instrs.len(),
        forall|i: int, j: int|
            0 <= i < m1.len() && 0 <= j < m1[i].instrs.len() && ((#[trigger] m2[i].instrs[j])
                matches DceInstr::Def { .. }) ==> m2[i].instrs[j] == m1[i].instrs[j],
    ensures
        live_def_count(m2) <= live_def_count(m1),
    decreases m1.len(),
{
    if m1.len() > 0 {
        if m1.first().live {
            lemma_def_count_le(m1.first().instrs, m2.first().instrs);
        }
        assert(forall|i: int|
            0 <= i < m1.drop_first().len() ==> m1.drop_first()[i] == m1[i + 1]
                && m2.drop_first()[i] == m2[i + 1]);
        lemma_live_count_le(m1.drop_first(), m2.drop_first());
    }
}

proof fn lemma_live_count_lt(m1: Seq<DceBlock>, m2: Seq<DceBlock>, w: (int, int))
    requires
        m1.len() == m2.len(),
        forall|i: int|
            0 <= i < m1.len() ==> (#[trigger] m2[i]).live == m1[i].live && m2[i].instrs.len()
                == m1[i].instrs.len(),
        forall|i: int, j: int|
            0 <= i < m1.len() && 0 <= j < m1[i].instrs.len() && ((#[trigger] m2[i].instrs[j])
                matches DceInstr::Def { .. }) ==> m2[i].instrs[j] == m1[i].instrs[j],
        pos_ok(m1, w),
        !(m2[w.0].instrs[w.1] matches DceInstr::Def { .. }),
    ensures
        live_def_count(m2) < live_def_count(m1),
    decreases m1.len(),
{
    assert(forall|i: int|
        0 <= i < m1.drop_first().len() ==> m1.drop_first()[i] == m1[i + 1] && m2.drop_first()[i]
            == m2[i + 1]);
    if w.0 == 0 {
        lemma_def_count_lt(m1.first().instrs, m2.first().instrs, w.1);
        lemma_live_count_le(m1.drop_first(), m2.drop_first());
    } else {
        if m1.first().live {
            lemma_def_count_le(m1.first().instrs, m2.first().instrs);
        }
        lemma_live_count_lt(m1.drop_first(), m2.drop_first(), (w.0 - 1, w.1));
    }
}

/// Tombstoning what a scan found dead strictly shrinks the live definitions.
proof fn lemma_scan_dead_decreases(m: Seq<DceBlock>)
    requires
        scan_dead(m).len() > 0,
    ensures
        live_def_count(tomb_view(m, scan_dead(m))) < live_def_count(m),
{
    let d = scan_dead(m);
    let m2 = tomb_view(m, d);
    lemma_scan_dead_ok(m);
    let w = d[0];
    assert(pos_ok(m, w));
    assert(d.contains(w));
    assert(!(m2[w.0].instrs[w.1] matches DceInstr::Def { .. }));
    lemma_live_count_lt(m, m2, w);
}

/// Every position the iterated dead-code scan tombstones, across all rounds,
/// in the order the rounds find them.
pub open spec fn dce_fix_dead(m: Seq<DceBlock>) -> Seq<(int, int)>
    decreases live_def_count(m) via dce_fix_dead_decreases
{
    let d = scan_dead(m);
    if d.len() == 0 {
        Seq::empty()
    } else {
        d + dce_fix_dead(tomb_view(m, d))
    }
}

#[via_fn]
proof fn dce_fix_dead_decreases(m: Seq<DceBlock>) {
    if scan_dead(m).len() != 0 {
        lemma_scan_dead_decreases(m);
    }
}

} // verus!

verus! {

/// The model of the executable pending-definition table.
pub open spec fn defs_view(v: Seq<(String, (usize, usize))>) -> Seq<(Seq<char>, (int, int))> {
    v.map_values(|e: (String, (usize, usize))| (e.0@, (e.1.0 as int, e.1.1 as int)))
}

/// The model of the executable dead-position list.
pub open spec fn dead_view(v: Seq<(usize, usize)>) -> Seq<(int, int)> {
    v.map_values(|p: (usize, usize)| (p.0 as int, p.1 as int))
}

proof fn lemma_al_remove_at(dm: Seq<(Seq<char>, (int, int))>, k: Seq<char>, i: int)
    requires
        0 <= i < dm.len(),
        dm[i].0 == k,
        forall|j: int| 0 <= j < i ==> (#[trigger] dm[j]).0 != k,
    ensures
        al_remove(dm, k) =~= dm.remove(i),
    decreases dm.len(),
{
    if i == 0 {
        assert(al_remove(dm, k) =~= dm.drop_first());
        assert(dm.remove(0) =~= dm.drop_first());
    } else {
        assert(forall|j: int| 0 <= j < dm.drop_first().len() ==> dm.drop_first()[j] == dm[j + 1]);
        lemma_al_remove_at(dm.drop_first(), k, i - 1);
        assert(dm.remove(i) =~= seq![dm.first()] + dm.drop_first().remove(i - 1));
    }
}

proof fn lemma_al_remove_absent(dm: Seq<(Seq<char>, (int, int))>, k: Seq<char>)
    requires
        forall|j: int| 0 <= j < dm.len() ==> (#[trigger] dm[j]).0 != k,
    ensures
        al_remove(dm, k) =~= dm,
    decreases dm.len(),
{
    if dm.len() > 0 {
        assert(forall|j: int| 0 <= j < dm.drop_first().len() ==> dm.drop_first()[j] == dm[j + 1]);
        lemma_al_remove_absent(dm.drop_first(), k);
        assert(al_remove(dm, k) =~= seq![dm.first()] + dm.drop_first());
    }
}

proof fn lemma_al_get_at(dm: Seq<(Seq<char>, (int, int))>, k: Seq<char>, i: int)
    requires
        0 <= i < dm.len(),
        dm[i].0 == k,
        forall|j: int| 0 <= j < i ==> (#[trigger] dm[j]).0 != k,
    ensures
        al_get(dm, k) == Some(dm[i].1),
    decreases dm.len(),
{
    if i > 0 {
        assert(forall|j: int| 0 <= j < dm.drop_first().len() ==> dm.drop_first()[j] == dm[j + 1]);
        lemma_al_get_at(dm.drop_first(), k, i - 1);
    }
}

proof fn lemma_al_get_absent(dm: Seq<(Seq<char>, (int, int))>, k: Seq<char>)
    requires
        forall|j: int| 0 <= j < dm.len() ==> (#[trigger] dm[j]).0 != k,
    ensures
        al_get(dm, k) is None,
    decreases dm.len(),
{
    if dm.len() > 0 {
        assert(forall|j: int| 0 <= j < dm.drop_first().len() ==> dm.drop_first()[j] == dm[j + 1]);
        lemma_al_get_absent(dm.drop_first(), k);
    }
}

proof fn lemma_al_set_at(dm: Seq<(Seq<char>, (int, int))>, k: Seq<char>, v: (int, int), i: int)
    requires
        0 <= i < dm.len(),
        dm[i].0 == k,
        forall|j: int| 0 <= j < i ==> (#[trigger] dm[j]).0 != k,
    ensures
        al_set(dm, k, v) =~= dm.update(i, (k, v)),
    decreases dm.len(),
{
    if i == 0 {
        assert(al_set(dm, k, v) =~= seq![(k, v)] + dm.drop_first());
    } else {
        assert(forall|j: int| 0 <= j < dm.drop_first().len() ==> dm.drop_first()[j] == dm[j + 1]);
        lemma_al_set_at(dm.drop_first(), k, v, i - 1);
        assert(dm.update(i, (k, v)) =~= seq![dm.first()] + dm.drop_first().update(i - 1, (k, v)));
    }
}

proof fn lemma_al_set_absent(dm: Seq<(Seq<char>, (int, int))>, k: Seq<char>, v: (int, int))
    requires
        forall|j: int| 0 <= j < dm.len() ==> (#[trigger] dm[j]).0 != k,
    ensures
        al_set(dm, k, v) =~= dm.push((k, v)),
    decreases dm.len(),
{
    if dm.len() > 0 {
        assert(forall|j: int| 0 <= j < dm.drop_first().len() ==> dm.drop_first()[j] == dm[j + 1]);
        lemma_al_set_absent(dm.drop_first(), k, v);
        assert(al_set(dm, k, v) =~= seq![dm.first()] + dm.drop_first().push((k, v)));
    }
}

/// Drop the pending definition of a used name, if any.
fn defs_remove(defs: &mut Vec<(String, (usize, usize))>, name: &String)
    ensures
        defs_view(final(defs)@) == al_remove(defs_view(old(defs)@), name@),
{
    let ghost dm = defs_view(defs@);
    let mut i: usize = 0;
    while i < defs.len()
        invariant
            dm == defs_view(defs@),
            dm == defs_view(old(defs)@),
            i <= defs@.len(),
            forall|j: int| 0 <= j < i ==> (#[trigger] dm[j]).0 != name@,
        decreases defs@.len() - i,
    {
        let hit = defs[i].0 == *name;
        if hit {
            proof {
                assert(dm[i as int].0 == name@);
                lemma_al_remove_at(dm, name@, i as int);
            }
            let ghost prev = defs@;
            defs.remove(i);
            proof {
                assert(defs_view(defs@) =~= defs_view(prev).remove(i as int));
            }
            return ;
        }
        proof {
            assert(dm[i as int].0 != name@);
        }
        i = i + 1;
    }
    proof {
        lemma_al_remove_absent(dm, name@);
    }
}

/// Make a name's pending definition the given position, handing back the
/// binding it replaces, if any.
fn defs_set(defs: &mut Vec<(String, (usize, usize))>, name: String, bi: usize, ii: usize) -> (r:
    Option<(usize, usize)>)
    ensures
        defs_view(final(defs)@) == al_set(defs_view(old(defs)@), name@, (bi as int, ii as int)),
        match r {
            Some(p) => al_get(defs_view(old(defs)@), name@) == Some((p.0 as int, p.1 as int)),
            None => al_get(defs_view(old(defs)@), name@) is None,
        },
{
    let ghost dm = defs_view(defs@);
    let mut i: usize = 0;
    while i < defs.len()
        invariant
            dm == defs_view(defs@),
            dm == defs_view(old(defs)@),
            i <= defs@.len(),
            forall|j: int| 0 <= j < i ==> (#[trigger] dm[j]).0 != name@,
        decreases defs@.len() - i,
    {
        let hit = defs[i].0 == *(&name);
        if hit {
            proof {
                assert(dm[i as int].0 == name@);
                lemma_al_get_at(dm, name@, i as int);
                lemma_al_set_at(dm, name@, (bi as int, ii as int), i as int);
            }
            let old_pos = defs[i].1;
            let ghost prev = defs@;
            defs.set(i, (name, (bi, ii)));
            proof {
                assert(defs_view(defs@) =~= defs_view(prev).update(
                    i as int,
                    (name@, (bi as int, ii as int)),
                ));
                assert((old_pos.0 as int, old_pos.1 as int) == dm[i as int].1);
            }
            return Some(old_pos);
        }
        proof {
            assert(dm[i as int].0 != name@);
        }
        i = i + 1;
    }
    proof {
        lemma_al_get_absent(dm, name@);
        lemma_al_set_absent(dm, name@, (bi as int, ii as int));
    }
    let ghost prev = defs@;
    defs.push((name, (bi, ii)));
    proof {
        assert(defs_view(defs@) =~= defs_view(prev).push((name@, (bi as int, ii as int))));
    }
    None
}

} // verus!

verus! {

/// One full dead-code scan over a function's live blocks: the positions of
/// the definitions that are overwritten before use or never used at all.
fn dce_scan(blocks: &Vec<BasicBlock>) -> (dead: Vec<(usize, usize)>)
    ensures
        dead_view(dead@) == scan_dead(dce_view(block_views(blocks@))),
{
    let ghost m = dce_view(block_views(blocks@));
    let ghost init = DceState { defs: Seq::empty(), dead: Seq::empty() };
    let mut defs: Vec<(String, (usize, usize))> = Vec::new();
    let mut dead: Vec<(usize, usize)> = Vec::new();
    let mut bi: usize = 0;
    proof {
        assert(defs_view(defs@) =~= init.defs);
        assert(dead_view(dead@) =~= init.dead);
    }
    while bi < blocks.len()
        invariant
            m == dce_view(block_views(blocks@)),
            m.len() == blocks@.len(),
            bi <= blocks@.len(),
            dce_scan_blocks(m, init, 0) == dce_scan_blocks(
                m,
                DceState { defs: defs_view(defs@), dead: dead_view(dead@) },
                bi as int,
            ),
        decreases blocks@.len() - bi,
    {
        let ghost st_entry = DceState { defs: defs_view(defs@), dead: dead_view(dead@) };
        let b = &blocks[bi];
        proof {
            assert(block_views(blocks@)[bi as int] == b@);
            assert(m[bi as int] == dce_block(b@));
        }
        if b.live {
            let mut ii: usize = 0;
            while ii < b.instrs.len()
                invariant
                    m == dce_view(block_views(blocks@)),
                    m.len() == blocks@.len(),
                    bi < blocks@.len(),
                    ii <= b.instrs@.len(),
                    b@ == block_views(blocks@)[bi as int],
                    m[bi as int] == dce_block(b@),
                    m[bi as int].live,
                    dce_scan_block(st_entry, bi as int, m[bi as int].instrs, 0)
                        == dce_scan_block(
                        DceState { defs: defs_view(defs@), dead: dead_view(dead@) },
                        bi as int,
                        m[bi as int].instrs,
                        ii as int,
                    ),
                decreases b.instrs@.len() - ii,
            {
                let ghost st_prev = DceState { defs: defs_view(defs@), dead: dead_view(dead@) };
                let ghost di = m[bi as int].instrs[ii as int];
                proof {
                    assert(di == dce_instr(b.instrs@[ii as int]));
                }
                let instr = &b.instrs[ii];
                match instr {
                    Code::Instruction(Instr::Constant { dest, .. }) => {
                        let old_pos = defs_set(&mut defs, dest.clone(), bi, ii);
                        match old_pos {
                            Some(p) => {
                                let ghost dv = dead_view(dead@);
                                dead.push(p);
                                proof {
                                    assert(dead_view(dead@) =~= dv.push(
                                        (p.0 as int, p.1 as int),
                                    ));
                                }
                            },
                            None => {},
                        }
                        proof {
                            assert(al_remove_all(st_prev.defs, di->Def_uses) == st_prev.defs);
                            assert(DceState { defs: defs_view(defs@), dead: dead_view(dead@) }
                                == dce_step(st_prev, bi as int, ii as int, di));
                        }
                    },
                    Code::Instruction(Instr::Value { dest, args, .. }) => {
                        let ghost uses = di->Def_uses;
                        let ghost defs_start = defs_view(defs@);
                        let mut k: usize = 0;
                        proof {
                            assert(uses =~= name_views(args@));
                            assert(uses.skip(0) =~= uses);
                        }
                        while k < args.len()
                            invariant
                                uses == name_views(args@),
                                k <= args@.len(),
                                al_remove_all(defs_start, uses) == al_remove_all(
                                    defs_view(defs@),
                                    uses.skip(k as int),
                                ),
                            decreases args@.len() - k,
                        {
                            let ghost dv_before = defs_view(defs@);
                            defs_remove(&mut defs, &args[k]);
                            proof {
                                assert(uses.skip(k as int).first() == args@[k as int]@);
                                assert(uses.skip(k as int).drop_first() =~= uses.skip(
                                    k as int + 1,
                                ));
                                assert(al_remove_all(dv_before, uses.skip(k as int))
                                    == al_remove_all(
                                    al_remove(dv_before, args@[k as int]@),
                                    uses.skip(k as int + 1),
                                ));
                            }
                            k = k + 1;
                        }
                        proof {
                            assert(uses.skip(args@.len() as int) =~= Seq::<Seq<char>>::empty());
                            assert(al_remove_all(defs_start, uses) == defs_view(defs@));
                        }
                        let old_pos = defs_set(&mut defs, dest.clone(), bi, ii);
                        match old_pos {
                            Some(p) => {
                                let ghost dv = dead_view(dead@);
                                dead.push(p);
                                proof {
                                    assert(dead_view(dead@) =~= dv.push(
                                        (p.0 as int, p.1 as int),
                                    ));
                                }
                            },
                            None => {},
                        }
                        proof {
                            assert(DceState { defs: defs_view(defs@), dead: dead_view(dead@) }
                                == dce_step(st_prev, bi as int, ii as int, di));
                        }
                    },
                    Code::Instruction(Instr::Effect { args, .. }) => {
                        let ghost uses = di->Use_uses;
                        let ghost defs_start = defs_view(defs@);
                        let mut k: usize = 0;
                        proof {
                            assert(uses =~= name_views(args@));
                            assert(uses.skip(0) =~= uses);
                        }
                        while k < args.len()
                            invariant
                                uses == name_views(args@),
                                k <= args@.len(),
                                al_remove_all(defs_start, uses) == al_remove_all(
                                    defs_view(defs@),
                                    uses.skip(k as int),
                                ),
                            decreases args@.len() - k,
                        {
                            let ghost dv_before = defs_view(defs@);
                            defs_remove(&mut defs, &args[k]);
                            proof {
                                assert(uses.skip(k as int).first() == args@[k as int]@);
                                assert(uses.skip(k as int).drop_first() =~= uses.skip(
                                    k as int + 1,
                                ));
                                assert(al_remove_all(dv_before, uses.skip(k as int))
                                    == al_remove_all(
                                    al_remove(dv_before, args@[k as int]@),
                                    uses.skip(k as int + 1),
                                ));
                            }
                            k = k + 1;
                        }
                        proof {
                            assert(uses.skip(args@.len() as int) =~= Seq::<Seq<char>>::empty());
                            assert(al_remove_all(defs_start, uses) == defs_view(defs@));
                            assert(DceState { defs: defs_view(defs@), dead: dead_view(dead@) }
                                == dce_step(st_prev, bi as int, ii as int, di));
                        }
                    },
                    Code::Label { .. } => {
                        proof {
                            assert(al_remove_all(st_prev.defs, di->Use_uses) == st_prev.defs);
                            assert(DceState { defs: defs_view(defs@), dead: dead_view(dead@) }
                                == dce_step(st_prev, bi as int, ii as int, di));
                        }
                    },
                }
                proof {
                    assert(dce_scan_block(st_prev, bi as int, m[bi as int].instrs, ii as int)
                        == dce_scan_block(
                        dce_step(st_prev, bi as int, ii as int, di),
                        bi as int,
                        m[bi as int].instrs,
                        ii as int + 1,
                    ));
                }
                ii = ii + 1;
            }
            proof {
                let st_now = DceState { defs: defs_view(defs@), dead: dead_view(dead@) };
                assert(dce_scan_block(st_now, bi as int, m[bi as int].instrs, b.instrs@.len() as int)
                    == st_now);
                assert(dce_scan_blocks(m, st_entry, bi as int) == dce_scan_blocks(
                    m,
                    st_now,
                    bi as int + 1,
                ));
            }
        } else {
            proof {
                assert(dce_scan_blocks(m, st_entry, bi as int) == dce_scan_blocks(
                    m,
                    st_entry,
                    bi as int + 1,
                ));
            }
        }
        bi = bi + 1;
    }
    let ghost st_final = DceState { defs: defs_view(defs@), dead: dead_view(dead@) };
    proof {
        assert(dce_scan_blocks(m, st_final, blocks@.len() as int) == st_final);
        assert(scan_dead(m) == st_final.dead + st_final.defs.map_values(
            |e: (Seq<char>, (int, int))| e.1,
        ));
    }
    let mut k: usize = 0;
    let total_defs = defs.len();
    while k < total_defs
        invariant
            total_defs == defs@.len(),
            k <= total_defs,
            st_final.defs == defs_view(defs@),
            dead_view(dead@) =~= st_final.dead + st_final.defs.map_values(
                |e: (Seq<char>, (int, int))| e.1,
            ).take(k as int),
        decreases total_defs - k,
    {
        let p = defs[k].1;
        let ghost dv = dead_view(dead@);
        dead.push(p);
        proof {
            assert(dead_view(dead@) =~= dv.push((p.0 as int, p.1 as int)));
            assert(st_final.defs.map_values(|e: (Seq<char>, (int, int))| e.1).take(k as int + 1)
                =~= st_final.defs.map_values(|e: (Seq<char>, (int, int))| e.1).take(
                k as int,
            ).push(st_final.defs[k as int].1));
            assert(st_final.defs[k as int].1 == (p.0 as int, p.1 as int));
        }
        k = k + 1;
    }
    proof {
        let vals = st_final.defs.map_values(|e: (Seq<char>, (int, int))| e.1);
        assert(vals.take(total_defs as int) =~= vals);
        assert(dead_view(dead@) =~= scan_dead(m));
    }
    dead
}

} // verus!

verus! {

/// Replace one instruction by a tombstone, in place.
fn tomb_at(blocks: &mut Vec<BasicBlock>, i: usize, j: usize)
    requires
        i < old(blocks)@.len(),
        j < old(blocks)@[i as int].instrs@.len(),
    ensures
        final(blocks)@.len() == old(blocks)@.len(),
        forall|x: int|
            0 <= x < final(blocks)@.len() && x != i ==> block_views(final(blocks)@)[x]
                == block_views(old(blocks)@)[x],
        block_views(final(blocks)@)[i as int].label == block_views(old(blocks)@)[i as int].label,
        block_views(final(blocks)@)[i as int].label_instr == block_views(
            old(blocks)@,
        )[i as int].label_instr,
        block_views(final(blocks)@)[i as int].live == block_views(old(blocks)@)[i as int].live,
        block_views(final(blocks)@)[i as int].in_edges == block_views(
            old(blocks)@,
        )[i as int].in_edges,
        block_views(final(blocks)@)[i as int].out_edges == block_views(
            old(blocks)@,
        )[i as int].out_edges,
        block_views(final(blocks)@)[i as int].instrs.len() == block_views(
            old(blocks)@,
        )[i as int].instrs.len(),
        forall|y: int|
            0 <= y < block_views(final(blocks)@)[i as int].instrs.len() && y != j
                ==> block_views(final(blocks)@)[i as int].instrs[y] == block_views(
                old(blocks)@,
            )[i as int].instrs[y],
        spec_is_tombstone(block_views(final(blocks)@)[i as int].instrs[j as int]),
{
    let ghost prev = blocks@;
    let t = make_tombstone();
    let b = &mut blocks[i];
    b.instrs.set(j, t);
    proof {
        assert(blocks@ =~= prev.update(i as int, blocks@[i as int]));
        assert(forall|x: int|
            0 <= x < blocks@.len() && x != i ==> block_views(blocks@)[x] == block_views(prev)[x]);
        assert(block_views(blocks@)[i as int].instrs =~= block_views(prev)[i as int].instrs.update(
            j as int,
            t,
        ));
    }
}

/// Replace each listed position by a tombstone, in place.
fn apply_tombstones(blocks: &mut Vec<BasicBlock>, dead: &Vec<(usize, usize)>)
    requires
        forall|k: int|
            0 <= k < dead@.len() ==> (#[trigger] dead@[k]).0 < old(blocks)@.len()
                && dead@[k].1 < old(blocks)@[dead@[k].0 as int].instrs@.len(),
    ensures
        final(blocks)@.len() == old(blocks)@.len(),
        forall|i: int|
            0 <= i < final(blocks)@.len() ==> {
                &&& (#[trigger] block_views(final(blocks)@)[i]).label == block_views(
                    old(blocks)@,
                )[i].label
                &&& block_views(final(blocks)@)[i].label_instr == block_views(
                    old(blocks)@,
                )[i].label_instr
                &&& block_views(final(blocks)@)[i].live == block_views(old(blocks)@)[i].live
                &&& block_views(final(blocks)@)[i].in_edges == block_views(
                    old(blocks)@,
                )[i].in_edges
                &&& block_views(final(blocks)@)[i].out_edges == block_views(
                    old(blocks)@,
                )[i].out_edges
                &&& block_views(final(blocks)@)[i].instrs.len() == block_views(
                    old(blocks)@,
                )[i].instrs.len()
            },
        forall|i: int, j: int|
            0 <= i < final(blocks)@.len() && 0 <= j < block_views(final(blocks)@)[i].instrs.len()
                ==> {
                &&& (dead_view(dead@).contains((i, j)) ==> spec_is_tombstone(
                    #[trigger] block_views(final(blocks)@)[i].instrs[j],
                ))
                &&& (!dead_view(dead@).contains((i, j)) ==> block_views(
                    final(blocks)@,
                )[i].instrs[j] == block_views(old(blocks)@)[i].instrs[j])
            },
{
    let ghost o = block_views(old(blocks)@);
    let ghost dv = dead_view(dead@);
    let mut k: usize = 0;
    while k < dead.len()
        invariant
            dv == dead_view(dead@),
            k <= dead@.len(),
            blocks@.len() == o.len(),
            forall|kk: int|
                0 <= kk < dead@.len() ==> (#[trigger] dead@[kk]).0 < o.len() && dead@[kk].1
                    < o[dead@[kk].0 as int].instrs.len(),
            forall|i: int|
                0 <= i < blocks@.len() ==> {
                    &&& (#[trigger] block_views(blocks@)[i]).label == o[i].label
                    &&& block_views(blocks@)[i].label_instr == o[i].label_instr
                    &&& block_views(blocks@)[i].live == o[i].live
                    &&& block_views(blocks@)[i].in_edges == o[i].in_edges
                    &&& block_views(blocks@)[i].out_edges == o[i].out_edges
                    &&& block_views(blocks@)[i].instrs.len() == o[i].instrs.len()
                },
            forall|i: int, j: int|
                0 <= i < blocks@.len() && 0 <= j < block_views(blocks@)[i].instrs.len() ==> {
                    &&& (dv.take(k as int).contains((i, j)) ==> spec_is_tombstone(
                        #[trigger] block_views(blocks@)[i].instrs[j],
                    ))
                    &&& (!dv.take(k as int).contains((i, j)) ==> block_views(blocks@)[i].instrs[j]
                        == o[i].instrs[j])
                },
        decreases dead@.len() - k,
    {
        let (pi, pj) = dead[k];
        proof {
            assert(dead@[k as int] == (pi, pj));
        }
        let ghost before = block_views(blocks@);
        proof {
            assert(pi < blocks@.len() && pj < o[pi as int].instrs.len());
            assert(blocks@[pi as int].instrs@.len() == block_views(
                blocks@,
            )[pi as int].instrs.len());
        }
        tomb_at(blocks, pi, pj);
        proof {
            assert(dv.take(k as int + 1) =~= dv.take(k as int).push((pi as int, pj as int)));
            assert forall|i: int, j: int|
                0 <= i < blocks@.len() && 0 <= j < block_views(blocks@)[i].instrs.len() implies {
                &&& (dv.take(k as int + 1).contains((i, j)) ==> spec_is_tombstone(
                    #[trigger] block_views(blocks@)[i].instrs[j],
                ))
                &&& (!dv.take(k as int + 1).contains((i, j)) ==> block_views(blocks@)[i].instrs[j]
                    == o[i].instrs[j])
            } by {
                if dv.take(k as int + 1).contains((i, j)) {
                    let w = choose|w: int|
                        0 <= w < dv.take(k as int + 1).len() && #[trigger] dv.take(
                            k as int + 1,
                        )[w] == (i, j);
                    if w < k {
                        assert(dv.take(k as int)[w] == (i, j));
                        assert(dv.take(k as int).contains((i, j)));
                        assert(spec_is_tombstone(before[i].instrs[j]));
                        if i == pi && j == pj {
                            assert(spec_is_tombstone(block_views(blocks@)[i].instrs[j]));
                        } else {
                            assert(block_views(blocks@)[i].instrs[j] == before[i].instrs[j]);
                        }
                    } else {
                        assert((i, j) == (pi as int, pj as int));
                        assert(spec_is_tombstone(block_views(blocks@)[i].instrs[j]));
                    }
                } else {
                    assert(!dv.take(k as int).contains((i, j))) by {
                        if dv.take(k as int).contains((i, j)) {
                            let w = choose|w: int|
                                0 <= w < dv.take(k as int).len() && #[trigger] dv.take(
                                    k as int,
                                )[w] == (i, j);
                            assert(dv.take(k as int + 1)[w] == (i, j));
                        }
                    }
                    assert((i, j) != (pi as int, pj as int)) by {
                        if (i, j) == (pi as int, pj as int) {
                            assert(dv.take(k as int + 1)[k as int] == (i, j));
                        }
                    }
                    assert(block_views(blocks@)[i].instrs[j] == before[i].instrs[j]);
                }
            }
        }
        k = k + 1;
    }
    proof {
        assert(dv.take(dead@.len() as int) =~= dv);
    }
}

} // verus!

verus! {

/// What global dead-code elimination establishes: everything but instruction
/// contents is unchanged, and an instruction is replaced by a tombstone
/// exactly when the iterated dead-code scan finds its position dead;
/// everything else is untouched. The scan never queues a position whose
/// definition is still read later in block order, so no used definition is
/// ever removed.
pub open spec fn dce_applied(o: Seq<BlockModel>, n: Seq<BlockModel>) -> bool {
    let d = dce_fix_dead(dce_view(o));
    &&& n.len() == o.len()
    &&& forall|i: int|
        0 <= i < n.len() ==> {
            &&& (#[trigger] n[i]).label == o[i].label
            &&& n[i].label_instr == o[i].label_instr
            &&& n[i].live == o[i].live
            &&& n[i].in_edges == o[i].in_edges
            &&& n[i].out_edges == o[i].out_edges
            &&& n[i].instrs.len() == o[i].instrs.len()
        }
    &&& forall|i: int, j: int|
        0 <= i < n.len() && 0 <= j < n[i].instrs.len() ==> {
            &&& (d.contains((i, j)) ==> spec_is_tombstone(#[trigger] n[i].instrs[j]))
            &&& (!d.contains((i, j)) ==> n[i].instrs[j] == o[i].instrs[j])
        }
}

/// Tombstone every instruction whose destination is never read afterwards,
/// in block order, repeating the whole scan until it finds nothing more: an
/// instruction tombstoned by one round can free the definitions it used for
/// the next round. Only instruction contents change; block structure, edges
/// and liveness stay as they were.
pub fn dce(fun: &mut BBFun)
    ensures
        final(fun).function == old(fun).function,
        dce_applied(block_views(old(fun).blocks@), block_views(final(fun).blocks@)),
{
    let ghost o = block_views(old(fun).blocks@);
    let ghost total_dead = dce_fix_dead(dce_view(o));
    let ghost mut applied: Seq<(int, int)> = Seq::empty();
    let mut done = false;
    proof {
        assert(applied + dce_fix_dead(dce_view(block_views(fun.blocks@))) =~= dce_fix_dead(
            dce_view(o),
        ));
    }
    while !done
        invariant
            fun.function == old(fun).function,
            fun.blocks@.len() == o.len(),
            total_dead == dce_fix_dead(dce_view(o)),
            forall|i: int|
                0 <= i < o.len() ==> {
                    &&& (#[trigger] block_views(fun.blocks@)[i]).label == o[i].label
                    &&& block_views(fun.blocks@)[i].label_instr == o[i].label_instr
                    &&& block_views(fun.blocks@)[i].live == o[i].live
                    &&& block_views(fun.blocks@)[i].in_edges == o[i].in_edges
                    &&& block_views(fun.blocks@)[i].out_edges == o[i].out_edges
                    &&& block_views(fun.blocks@)[i].instrs.len() == o[i].instrs.len()
                },
            total_dead == applied + dce_fix_dead(dce_view(block_views(fun.blocks@))),
            forall|i: int, j: int|
                0 <= i < o.len() && 0 <= j < o[i].instrs.len() ==> {
                    &&& (applied.contains((i, j)) ==> spec_is_tombstone(
                        #[trigger] block_views(fun.blocks@)[i].instrs[j],
                    ))
                    &&& (!applied.contains((i, j)) ==> block_views(fun.blocks@)[i].instrs[j]
                        == o[i].instrs[j])
                },
            done ==> scan_dead(dce_view(block_views(fun.blocks@))).len() == 0,
        decreases live_def_count(dce_view(block_views(fun.blocks@))), (if done {
            0int
        } else {
            1
        }),
    {
        let dead = dce_scan(&fun.blocks);
        if dead.len() == 0 {
            done = true;
            proof {
                assert(dead_view(dead@).len() == 0);
            }
        } else {
            let ghost m_before = dce_view(block_views(fun.blocks@));
            let ghost d = dead_view(dead@);
            proof {
                assert(d == scan_dead(m_before));
                assert(d.len() > 0);
                lemma_scan_dead_ok(m_before);
                assert forall|k: int| 0 <= k < dead@.len() implies (#[trigger] dead@[k]).0
                    < fun.blocks@.len() && dead@[k].1 < fun.blocks@[dead@[k].0 as int].instrs@.len()
                    by {
                    assert(d[k] == (dead@[k].0 as int, dead@[k].1 as int));
                    assert(pos_ok(m_before, d[k]));
                    assert(m_before[dead@[k].0 as int].instrs.len() == block_views(
                        fun.blocks@,
                    )[dead@[k].0 as int].instrs.len());
                }
                lemma_scan_dead_decreases(m_before);
            }
            let ghost before = block_views(fun.blocks@);
            apply_tombstones(&mut fun.blocks, &dead);
            proof {
                let now = block_views(fun.blocks@);
                assert(dce_view(now) =~~= tomb_view(m_before, d)) by {
                    assert forall|i: int| 0 <= i < now.len() implies dce_view(now)[i]
                        =~~= tomb_view(m_before, d)[i] by {
                        assert(dce_view(now)[i] == dce_block(now[i]));
                        assert(m_before[i] == dce_block(before[i]));
                        assert(now[i].instrs.len() == before[i].instrs.len());
                        assert forall|j: int| 0 <= j < now[i].instrs.len() implies dce_block(
                            now[i],
                        ).instrs[j] == tomb_block(m_before[i], i, d).instrs[j] by {
                            if d.contains((i, j)) {
                                assert(spec_is_tombstone(now[i].instrs[j]));
                                match now[i].instrs[j] {
                                    Code::Instruction(Instr::Effect { args, .. }) => {
                                        assert(name_views(args@) =~= Seq::<Seq<char>>::empty());
                                    },
                                    _ => {
                                        assert(false);
                                    },
                                }
                                assert(dce_instr(now[i].instrs[j]) =~= (DceInstr::Use {
                                    uses: Seq::empty(),
                                }));
                            } else {
                                assert(now[i].instrs[j] == before[i].instrs[j]);
                            }
                        }
                    }
                }
                assert(dce_fix_dead(m_before) == d + dce_fix_dead(tomb_view(m_before, d)));
                let prev_applied = applied;
                applied = applied + d;
                assert(total_dead == applied + dce_fix_dead(dce_view(block_views(fun.blocks@))))
                    by {
                    assert(prev_applied + (d + dce_fix_dead(tomb_view(m_before, d))) =~= (
                    prev_applied + d) + dce_fix_dead(tomb_view(m_before, d)));
                }
                assert forall|i: int, j: int|
                    0 <= i < o.len() && 0 <= j < o[i].instrs.len() implies {
                    &&& (applied.contains((i, j)) ==> spec_is_tombstone(
                        #[trigger] block_views(fun.blocks@)[i].instrs[j],
                    ))
                    &&& (!applied.contains((i, j)) ==> block_views(fun.blocks@)[i].instrs[j]
                        == o[i].instrs[j])
                } by {
                    if applied.contains((i, j)) {
                        let w = choose|w: int|
                            0 <= w < applied.len() && #[trigger] applied[w] == (i, j);
                        if w < prev_applied.len() {
                            assert(prev_applied[w] == (i, j));
                            assert(prev_applied.contains((i, j)));
                            assert(spec_is_tombstone(before[i].instrs[j]));
                            if d.contains((i, j)) {
                                assert(spec_is_tombstone(block_views(fun.blocks@)[i].instrs[j]));
                            } else {
                                assert(block_views(fun.blocks@)[i].instrs[j]
                                    == before[i].instrs[j]);
                            }
                        } else {
                            assert(d[w - prev_applied.len()] == (i, j));
                            assert(d.contains((i, j)));
                            assert(spec_is_tombstone(block_views(fun.blocks@)[i].instrs[j]));
                        }
                    } else {
                        assert(!prev_applied.contains((i, j))) by {
                            if prev_applied.contains((i, j)) {
                                let w = choose|w: int|
                                    0 <= w < prev_applied.len() && #[trigger] prev_applied[w] == (
                                        i,
                                        j,
                                    );
                                assert(applied[w] == (i, j));
                            }
                        }
                        assert(!d.contains((i, j))) by {
                            if d.contains((i, j)) {
                                let w = choose|w: int| 0 <= w < d.len() && #[trigger] d[w] == (
                                    i,
                                    j,
                                );
                                assert(applied[prev_applied.len() + w] == (i, j));
                            }
                        }
                        assert(block_views(fun.blocks@)[i].instrs[j] == before[i].instrs[j]);
                    }
                }
            }
        }
    }
    proof {
        let m_final = dce_view(block_views(fun.blocks@));
        assert(dce_fix_dead(m_final) =~= Seq::<(int, int)>::empty());
        assert(applied =~= total_dead);
    }
}

} // verus!
