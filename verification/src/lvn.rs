use crate::blocks::{block_views, BBFun, BasicBlock, BlockModel};
use crate::ir::{make_tombstone, name_views, spec_is_tombstone, Code, Instr, Lit, ValueOp};
use vstd::prelude::*;

verus! {

/// What local value numbering reads of one instruction.
#[verifier::ext_equal]
pub ghost enum LvnInstr {
    LConst { dest: Seq<char>, value: Lit },
    LVal { op: ValueOp, dest: Seq<char>, args: Seq<Seq<char>> },
    LEff { args: Seq<Seq<char>> },
    LLabel,
}

/// The value-numbering view of a code item.
pub open spec fn lvn_instr(c: Code) -> LvnInstr {
    match c {
        Code::Instruction(Instr::Constant { dest, value, .. }) => LvnInstr::LConst {
            dest: dest@,
            value,
        },
        Code::Instruction(Instr::Value { op, dest, args, .. }) => LvnInstr::LVal {
            op,
            dest: dest@,
            args: name_views(args@),
        },
        Code::Instruction(Instr::Effect { args, .. }) => LvnInstr::LEff {
            args: name_views(args@),
        },
        Code::Label { .. } => LvnInstr::LLabel,
    }
}

/// A canonical value key: the literal of a constant, or an operation with the
/// canonical names of its operands. The operand order is kept as written:
/// commutative operations are not reordered, a conservative choice that may
/// miss some redundancy but never invents one.
#[verifier::ext_equal]
pub ghost enum VKey {
    VConst(Lit),
    VOp(ValueOp, Seq<Seq<char>>),
}

/// The value-numbering table state: value key to the variable that first
/// computed it, and variable to the canonical variable currently holding the
/// same value (a variable missing from the map is its own canonical name).
#[verifier::ext_equal]
pub ghost struct LvnState {
    pub table: Seq<(VKey, Seq<char>)>,
    pub vmap: Seq<(Seq<char>, Seq<char>)>,
}

/// What becomes of one instruction: kept with its argument names replaced by
/// their canonical names, rewritten into a copy of an earlier variable, or
/// tombstoned by the local dead-code pass.
#[verifier::ext_equal]
pub ghost enum LvnOut {
    Keep { args: Seq<Seq<char>> },
    Copy { src: Seq<char> },
    Tomb,
}

/// The first binding of a name in the canonical-name map.
pub open spec fn vget(m: Seq<(Seq<char>, Seq<char>)>, k: Seq<char>) -> Option<Seq<char>>
    decreases m.len(),
{
    if m.len() == 0 {
        None
    } else if m.first().0 == k {
        Some(m.first().1)
    } else {
        vget(m.drop_first(), k)
    }
}

/// The canonical name of a variable: what the map says, or the variable
/// itself.
pub open spec fn canon_of(m: Seq<(Seq<char>, Seq<char>)>, a: Seq<char>) -> Seq<char> {
    match vget(m, a) {
        Some(c) => c,
        None => a,
    }
}

/// The canonical names of an argument list.
pub open spec fn canon_args(m: Seq<(Seq<char>, Seq<char>)>, args: Seq<Seq<char>>) -> Seq<
    Seq<char>,
> {
    args.map_values(|a: Seq<char>| canon_of(m, a))
}

/// The first binding of a key in the value table.
pub open spec fn tbl_get(t: Seq<(VKey, Seq<char>)>, k: VKey) -> Option<Seq<char>>
    decreases t.len(),
{
    if t.len() == 0 {
        None
    } else if t.first().0 == k {
        Some(t.first().1)
    } else {
        tbl_get(t.drop_first(), k)
    }
}

/// Whether a value key reads the given variable.
pub open spec fn key_mentions(k: VKey, d: Seq<char>) -> bool {
    match k {
        VKey::VConst(_) => false,
        VKey::VOp(_, args) => args.contains(d),
    }
}

/// Drop every table entry that a redefinition of d makes stale: one whose
/// canonical variable is d, or whose key reads d.
pub open spec fn tbl_inval(t: Seq<(VKey, Seq<char>)>, d: Seq<char>) -> Seq<(VKey, Seq<char>)>
    decreases t.len(),
{
    if t.len() == 0 {
        Seq::empty()
    } else if t.first().1 == d || key_mentions(t.first().0, d) {
        tbl_inval(t.drop_first(), d)
    } else {
        seq![t.first()] + tbl_inval(t.drop_first(), d)
    }
}

/// Drop every canonical-name binding that a redefinition of d makes stale:
/// d's own binding, and any binding that resolves to d.
pub open spec fn vmap_inval(m: Seq<(Seq<char>, Seq<char>)>, d: Seq<char>) -> Seq<
    (Seq<char>, Seq<char>),
>
    decreases m.len(),
{
    if m.len() == 0 {
        Seq::empty()
    } else if m.first().0 == d || m.first().1 == d {
        vmap_inval(m.drop_first(), d)
    } else {
        seq![m.first()] + vmap_inval(m.drop_first(), d)
    }
}

/// Whether an operation may be given a value number: it must compute a pure
/// function of its arguments. Calls may have side effects, loads read memory,
/// allocations return fresh storage, phis depend on control flow, and copies
/// are handled by the canonical-name map alone, so none of them is numbered.
pub open spec fn spec_numberable(op: ValueOp) -> bool {
    !(op == ValueOp::Call || op == ValueOp::Phi || op == ValueOp::Alloc || op == ValueOp::Load
        || op == ValueOp::Id)
}

/// One value-numbering step: what the instruction becomes and the next table
/// state. A constant or pure operation whose key is already in the table is
/// rewritten into a copy of the variable that first computed it; a fresh key
/// is recorded under the destination; every instruction's arguments are
/// replaced by their canonical names; any redefinition of a destination
/// invalidates the stale table entries and canonical-name bindings first.
pub open spec fn lvn_step(st: LvnState, li: LvnInstr) -> (LvnState, LvnOut) {
    match li {
        LvnInstr::LConst { dest, value } => {
            let key = VKey::VConst(value);
            match tbl_get(st.table, key) {
                Some(cv) => {
                    if cv != dest {
                        (
                            LvnState {
                                table: tbl_inval(st.table, dest),
                                vmap: vmap_inval(st.vmap, dest).push((dest, cv)),
                            },
                            LvnOut::Copy { src: cv },
                        )
                    } else {
                        (
                            LvnState {
                                table: tbl_inval(st.table, dest).push((key, dest)),
                                vmap: vmap_inval(st.vmap, dest),
                            },
                            LvnOut::Keep { args: Seq::empty() },
                        )
                    }
                },
                None => (
                    LvnState {
                        table: tbl_inval(st.table, dest).push((key, dest)),
                        vmap: vmap_inval(st.vmap, dest),
                    },
                    LvnOut::Keep { args: Seq::empty() },
                ),
            }
        },
        LvnInstr::LVal { op, dest, args } => {
            let cargs = canon_args(st.vmap, args);
            if spec_numberable(op) {
                let key = VKey::VOp(op, cargs);
                match tbl_get(st.table, key) {
                    Some(cv) => {
                        if cv != dest {
                            (
                                LvnState {
                                    table: tbl_inval(st.table, dest),
                                    vmap: vmap_inval(st.vmap, dest).push((dest, cv)),
                                },
                                LvnOut::Copy { src: cv },
                            )
                        } else {
                            (
                                LvnState {
                                    table: tbl_inval(st.table, dest).push((key, dest)),
                                    vmap: vmap_inval(st.vmap, dest),
                                },
                                LvnOut::Keep { args: cargs },
                            )
                        }
                    },
                    None => (
                        LvnState {
                            table: tbl_inval(st.table, dest).push((key, dest)),
                            vmap: vmap_inval(st.vmap, dest),
                        },
                        LvnOut::Keep { args: cargs },
                    ),
                }
            } else {
                (
                    LvnState {
                        table: tbl_inval(st.table, dest),
                        vmap: vmap_inval(st.vmap, dest),
                    },
                    LvnOut::Keep { args: cargs },
                )
            }
        },
        LvnInstr::LEff { args } => (st, LvnOut::Keep { args: canon_args(st.vmap, args) }),
        LvnInstr::LLabel => (st, LvnOut::Keep { args: Seq::empty() }),
    }
}

/// The outcomes of value numbering a block's instructions from position j on.
pub open spec fn lvn_scan(instrs: Seq<LvnInstr>, st: LvnState, j: int) -> Seq<LvnOut>
    decreases instrs.len() - j,
{
    if j < 0 || j >= instrs.len() {
        Seq::empty()
    } else {
        let (st2, out) = lvn_step(st, instrs[j]);
        seq![out] + lvn_scan(instrs, st2, j + 1)
    }
}

/// The table state a block starts from: empty, because no value identity is
/// shared across blocks.
pub open spec fn lvn_init() -> LvnState {
    LvnState { table: Seq::empty(), vmap: Seq::empty() }
}

/// What an instruction's value-numbering view becomes under an outcome.
pub open spec fn apply_out(li: LvnInstr, out: LvnOut) -> LvnInstr {
    match out {
        LvnOut::Keep { args } => match li {
            LvnInstr::LVal { op, dest, .. } => LvnInstr::LVal { op, dest, args },
            LvnInstr::LEff { .. } => LvnInstr::LEff { args },
            _ => li,
        },
        LvnOut::Copy { src } => match li {
            LvnInstr::LConst { dest, .. } => LvnInstr::LVal {
                op: ValueOp::Id,
                dest,
                args: seq![src],
            },
            LvnInstr::LVal { dest, .. } => LvnInstr::LVal {
                op: ValueOp::Id,
                dest,
                args: seq![src],
            },
            _ => li,
        },
        LvnOut::Tomb => li,
    }
}

/// A block's value-numbering view after the rewrite.
pub open spec fn rewritten(proj: Seq<LvnInstr>, outs: Seq<LvnOut>) -> Seq<LvnInstr> {
    Seq::new(proj.len(), |j: int| apply_out(proj[j], outs[j]))
}

/// Whether one rewritten code item matches its outcome: a kept instruction
/// keeps its operation, destination, type, functions and labels, with its
/// argument names replaced as directed; a copy becomes an identity move of the
/// source into the old destination, with the old type; a tombstoned one is the
/// inert no-op.
pub open spec fn rewrite_ok(old_c: Code, new_c: Code, out: LvnOut) -> bool {
    match out {
        LvnOut::Tomb => spec_is_tombstone(new_c),
        LvnOut::Copy { src } => match new_c {
            Code::Instruction(Instr::Value { op, dest, val_type, args, funcs, labels }) => {
                &&& op == ValueOp::Id
                &&& name_views(args@) == seq![src]
                &&& funcs@.len() == 0
                &&& labels@.len() == 0
                &&& match old_c {
                    Code::Instruction(Instr::Constant { dest: od, const_type: ot, .. }) => dest
                        == od && val_type == ot,
                    Code::Instruction(Instr::Value { dest: od, val_type: ot, .. }) => dest == od
                        && val_type == ot,
                    _ => false,
                }
            },
            _ => false,
        },
        LvnOut::Keep { args: kargs } => match old_c {
            Code::Instruction(Instr::Constant { .. }) => new_c == old_c,
            Code::Label { .. } => new_c == old_c,
            Code::Instruction(Instr::Value { op: oop, dest: od, val_type: ot, funcs: ofn, labels: olb, .. }) => match new_c {
                Code::Instruction(Instr::Value { op, dest, val_type, args, funcs, labels }) => {
                    &&& op == oop
                    &&& dest == od
                    &&& val_type == ot
                    &&& name_views(args@) == kargs
                    &&& funcs == ofn
                    &&& labels == olb
                },
                _ => false,
            },
            Code::Instruction(Instr::Effect { op: oop, funcs: ofn, labels: olb, .. }) => match new_c {
                Code::Instruction(Instr::Effect { op, args, funcs, labels }) => {
                    &&& op == oop
                    &&& name_views(args@) == kargs
                    &&& funcs == ofn
                    &&& labels == olb
                },
                _ => false,
            },
        },
    }
}

/// Whether an instruction's view reads the given name.
pub open spec fn uses_name(li: LvnInstr, d: Seq<char>) -> bool {
    match li {
        LvnInstr::LVal { args, .. } => args.contains(d),
        LvnInstr::LEff { args } => args.contains(d),
        _ => false,
    }
}

/// The name an instruction's view defines, if any.
pub open spec fn def_of(li: LvnInstr) -> Option<Seq<char>> {
    match li {
        LvnInstr::LConst { dest, .. } => Some(dest),
        LvnInstr::LVal { dest, .. } => Some(dest),
        _ => None,
    }
}

/// Whether a later instruction of the block reads the name.
pub open spec fn used_later(s: Seq<LvnInstr>, j: int, d: Seq<char>) -> bool {
    exists|j2: int| j < j2 < s.len() && uses_name(#[trigger] s[j2], d)
}

/// Whether a later instruction of the block redefines the name.
pub open spec fn redef_later(s: Seq<LvnInstr>, j: int, d: Seq<char>) -> bool {
    exists|j2: int| j < j2 < s.len() && def_of(#[trigger] s[j2]) == Some(d)
}

/// Whether the local dead-code pass may drop the instruction at all: pure
/// definitions only, never a call, whose effects must stay.
pub open spec fn droppable(li: LvnInstr) -> bool {
    match li {
        LvnInstr::LConst { .. } => true,
        LvnInstr::LVal { op, .. } => op != ValueOp::Call,
        _ => false,
    }
}

/// Whether the local dead-code pass tombstones position j: its destination is
/// never read later in the block, and the value cannot escape — either the
/// destination is redefined before the block ends, or the block has no
/// successor that could read it. Cross-block liveness is not computed; this
/// conservative test may keep dead values but never drops a used one.
pub open spec fn local_dead(s: Seq<LvnInstr>, j: int, escapes: bool) -> bool {
    &&& droppable(s[j])
    &&& match def_of(s[j]) {
        Some(d) => !used_later(s, j, d) && (redef_later(s, j, d) || !escapes),
        None => false,
    }
}

/// Whether a block's value may be read after the block: it has a successor
/// that is live, or a successor beyond the block sequence (the virtual exit).
pub open spec fn block_escapes(bs: Seq<BlockModel>, i: int) -> bool {
    exists|t: int|
        #[trigger] bs[i].out_edges.contains(t) && (t >= bs.len() || (0 <= t && bs[t].live))
}

/// What one live block's instructions look like after local value numbering
/// and the local dead-code pass.
pub open spec fn lvn_block_applied(
    old_instrs: Seq<Code>,
    new_instrs: Seq<Code>,
    escapes: bool,
) -> bool {
    let proj = old_instrs.map_values(|c: Code| lvn_instr(c));
    let outs = lvn_scan(proj, lvn_init(), 0);
    let rew = rewritten(proj, outs);
    &&& new_instrs.len() == old_instrs.len()
    &&& forall|j: int|
        0 <= j < new_instrs.len() ==> if local_dead(rew, j, escapes) {
            spec_is_tombstone(#[trigger] new_instrs[j])
        } else {
            rewrite_ok(old_instrs[j], new_instrs[j], outs[j])
        }
}

/// What the combined pass establishes over a whole function: block structure,
/// edges and liveness unchanged; dead blocks untouched; each live block
/// rewritten as local value numbering and local dead-code elimination direct.
pub open spec fn lvn_applied(o: Seq<BlockModel>, n: Seq<BlockModel>) -> bool {
    &&& n.len() == o.len()
    &&& forall|i: int|
        0 <= i < n.len() ==> {
            &&& (#[trigger] n[i]).label == o[i].label
            &&& n[i].label_instr == o[i].label_instr
            &&& n[i].live == o[i].live
            &&& n[i].in_edges == o[i].in_edges
            &&& n[i].out_edges == o[i].out_edges
        }
    &&& forall|i: int| 0 <= i < n.len() && !(#[trigger] n[i]).live ==> n[i].instrs == o[i].instrs
    &&& forall|i: int|
        0 <= i < n.len() && (#[trigger] n[i]).live ==> lvn_block_applied(
            o[i].instrs,
            n[i].instrs,
            block_escapes(o, i),
        )
}

} // verus!

verus! {

/// An executable value key.
pub enum ValKey {
    KConst(Lit),
    KOp(ValueOp, Vec<String>),
}

/// The model of an executable value key.
pub open spec fn vkey_view(k: ValKey) -> VKey {
    match k {
        ValKey::KConst(l) => VKey::VConst(l),
        ValKey::KOp(op, args) => VKey::VOp(op, name_views(args@)),
    }
}

/// The model of the executable canonical-name map.
pub open spec fn vmap_view(v: Seq<(String, String)>) -> Seq<(Seq<char>, Seq<char>)> {
    v.map_values(|e: (String, String)| (e.0@, e.1@))
}

/// The model of the executable value table.
pub open spec fn table_view(v: Seq<(ValKey, String)>) -> Seq<(VKey, Seq<char>)> {
    v.map_values(|e: (ValKey, String)| (vkey_view(e.0), e.1@))
}

proof fn lemma_vget_at(m: Seq<(Seq<char>, Seq<char>)>, k: Seq<char>, i: int)
    requires
        0 <= i < m.len(),
        m[i].0 == k,
        forall|j: int| 0 <= j < i ==> (#[trigger] m[j]).0 != k,
    ensures
        vget(m, k) == Some(m[i].1),
    decreases m.len(),
{
    if i > 0 {
        assert(forall|j: int| 0 <= j < m.drop_first().len() ==> m.drop_first()[j] == m[j + 1]);
        lemma_vget_at(m.drop_first(), k, i - 1);
    }
}

proof fn lemma_vget_absent(m: Seq<(Seq<char>, Seq<char>)>, k: Seq<char>)
    requires
        forall|j: int| 0 <= j < m.len() ==> (#[trigger] m[j]).0 != k,
    ensures
        vget(m, k) is None,
    decreases m.len(),
{
    if m.len() > 0 {
        assert(forall|j: int| 0 <= j < m.drop_first().len() ==> m.drop_first()[j] == m[j + 1]);
        lemma_vget_absent(m.drop_first(), k);
    }
}

proof fn lemma_tbl_get_at(t: Seq<(VKey, Seq<char>)>, k: VKey, i: int)
    requires
        0 <= i < t.len(),
        t[i].0 == k,
        forall|j: int| 0 <= j < i ==> (#[trigger] t[j]).0 != k,
    ensures
        tbl_get(t, k) == Some(t[i].1),
    decreases t.len(),
{
    if i > 0 {
        assert(forall|j: int| 0 <= j < t.drop_first().len() ==> t.drop_first()[j] == t[j + 1]);
        lemma_tbl_get_at(t.drop_first(), k, i - 1);
    }
}

proof fn lemma_tbl_get_absent(t: Seq<(VKey, Seq<char>)>, k: VKey)
    requires
        forall|j: int| 0 <= j < t.len() ==> (#[trigger] t[j]).0 != k,
    ensures
        tbl_get(t, k) is None,
    decreases t.len(),
{
    if t.len() > 0 {
        assert(forall|j: int| 0 <= j < t.drop_first().len() ==> t.drop_first()[j] == t[j + 1]);
        lemma_tbl_get_absent(t.drop_first(), k);
    }
}

/// The canonical name of a variable, by the map or the variable itself.
fn canon(vmap: &Vec<(String, String)>, a: &String) -> (r: String)
    ensures
        r@ == canon_of(vmap_view(vmap@), a@),
{
    let ghost vm = vmap_view(vmap@);
    let mut i: usize = 0;
    while i < vmap.len()
        invariant
            vm == vmap_view(vmap@),
            i <= vmap@.len(),
            forall|j: int| 0 <= j < i ==> (#[trigger] vm[j]).0 != a@,
        decreases vmap@.len() - i,
    {
        let hit = vmap[i].0 == *a;
        if hit {
            proof {
                assert(vm[i as int].0 == a@);
                lemma_vget_at(vm, a@, i as int);
            }
            return vmap[i].1.clone();
        }
        proof {
            assert(vm[i as int].0 != a@);
        }
        i = i + 1;
    }
    proof {
        lemma_vget_absent(vm, a@);
    }
    a.clone()
}

/// The canonical names of an argument list, as fresh strings.
fn canon_args_exec(vmap: &Vec<(String, String)>, args: &Vec<String>) -> (r: Vec<String>)
    ensures
        name_views(r@) == canon_args(vmap_view(vmap@), name_views(args@)),
{
    let mut r: Vec<String> = Vec::new();
    let mut k: usize = 0;
    while k < args.len()
        invariant
            k <= args@.len(),
            name_views(r@) =~= canon_args(vmap_view(vmap@), name_views(args@)).take(k as int),
        decreases args@.len() - k,
    {
        let c = canon(vmap, &args[k]);
        let ghost prev = r@;
        r.push(c);
        proof {
            assert(name_views(r@) =~= name_views(prev).push(c@));
            assert(canon_args(vmap_view(vmap@), name_views(args@)).take(k as int + 1)
                =~= canon_args(vmap_view(vmap@), name_views(args@)).take(k as int).push(
                canon_of(vmap_view(vmap@), args@[k as int]@),
            ));
        }
        k = k + 1;
    }
    proof {
        assert(canon_args(vmap_view(vmap@), name_views(args@)).take(args@.len() as int)
            =~= canon_args(vmap_view(vmap@), name_views(args@)));
    }
    r
}

/// Whether two executable keys denote the same value key.
fn key_eq(a: &ValKey, b: &ValKey) -> (r: bool)
    ensures
        r == (vkey_view(*a) == vkey_view(*b)),
{
    match (a, b) {
        (ValKey::KConst(x), ValKey::KConst(y)) => *x == *y,
        (ValKey::KOp(o1, a1), ValKey::KOp(o2, a2)) => {
            if *o1 != *o2 {
                return false;
            }
            if a1.len() != a2.len() {
                proof {
                    assert(name_views(a1@).len() != name_views(a2@).len());
                }
                return false;
            }
            let mut i: usize = 0;
            while i < a1.len()
                invariant
                    vkey_view(*a) == VKey::VOp(*o1, name_views(a1@)),
                    vkey_view(*b) == VKey::VOp(*o2, name_views(a2@)),
                    *o1 == *o2,
                    a1@.len() == a2@.len(),
                    i <= a1@.len(),
                    forall|j: int| 0 <= j < i ==> (#[trigger] a1@[j])@ == a2@[j]@,
                decreases a1@.len() - i,
            {
                let same = a1[i] == a2[i];
                if !same {
                    proof {
                        assert(name_views(a1@)[i as int] != name_views(a2@)[i as int]);
                        assert(name_views(a1@) != name_views(a2@));
                    }
                    return false;
                }
                i = i + 1;
            }
            proof {
                assert(name_views(a1@) =~= name_views(a2@));
            }
            true
        },
        _ => false,
    }
}

/// Whether a key reads the given variable.
fn key_mentions_exec(k: &ValKey, d: &String) -> (r: bool)
    ensures
        r == key_mentions(vkey_view(*k), d@),
{
    match k {
        ValKey::KConst(_) => false,
        ValKey::KOp(kop, args) => {
            let mut i: usize = 0;
            while i < args.len()
                invariant
                    vkey_view(*k) == VKey::VOp(*kop, name_views(args@)),
                    i <= args@.len(),
                    forall|j: int| 0 <= j < i ==> (#[trigger] args@[j])@ != d@,
                decreases args@.len() - i,
            {
                let hit = args[i] == *d;
                if hit {
                    proof {
                        assert(name_views(args@)[i as int] == d@);
                        assert(name_views(args@).contains(d@));
                    }
                    return true;
                }
                i = i + 1;
            }
            proof {
                if name_views(args@).contains(d@) {
                    let j = choose|j: int|
                        0 <= j < name_views(args@).len() && #[trigger] name_views(args@)[j] == d@;
                    assert(args@[j]@ == d@);
                    assert(false);
                }
            }
            false
        },
    }
}

/// The first variable recorded for a value key, if any.
fn tbl_lookup(table: &Vec<(ValKey, String)>, k: &ValKey) -> (r: Option<String>)
    ensures
        match r {
            Some(cv) => tbl_get(table_view(table@), vkey_view(*k)) == Some(cv@),
            None => tbl_get(table_view(table@), vkey_view(*k)) is None,
        },
{
    let ghost tv = table_view(table@);
    let mut i: usize = 0;
    while i < table.len()
        invariant
            tv == table_view(table@),
            i <= table@.len(),
            forall|j: int| 0 <= j < i ==> (#[trigger] tv[j]).0 != vkey_view(*k),
        decreases table@.len() - i,
    {
        let hit = key_eq(&table[i].0, k);
        if hit {
            proof {
                assert(tv[i as int].0 == vkey_view(*k));
                lemma_tbl_get_at(tv, vkey_view(*k), i as int);
            }
            return Some(table[i].1.clone());
        }
        proof {
            assert(tv[i as int].0 != vkey_view(*k));
        }
        i = i + 1;
    }
    proof {
        lemma_tbl_get_absent(tv, vkey_view(*k));
    }
    None
}

/// Drop the table entries a redefinition makes stale.
fn tbl_invalidate(table: &mut Vec<(ValKey, String)>, d: &String)
    ensures
        table_view(final(table)@) == tbl_inval(table_view(old(table)@), d@),
{
    let ghost orig = table_view(table@);
    let mut out: Vec<(ValKey, String)> = Vec::new();
    proof {
        assert(tbl_inval(orig, d@) =~= table_view(out@) + tbl_inval(table_view(table@), d@));
    }
    while table.len() > 0
        invariant
            tbl_inval(orig, d@) == table_view(out@) + tbl_inval(table_view(table@), d@),
        decreases table@.len(),
    {
        let ghost prev = table_view(table@);
        let e = table.remove(0);
        proof {
            assert(table_view(table@) =~= prev.drop_first());
            assert((vkey_view(e.0), e.1@) == prev.first());
        }
        let stale = if e.1 == *d {
            true
        } else {
            key_mentions_exec(&e.0, d)
        };
        if !stale {
            let ghost outprev = table_view(out@);
            out.push(e);
            proof {
                assert(table_view(out@) =~= outprev.push(prev.first()));
                assert(tbl_inval(orig, d@) =~= table_view(out@) + tbl_inval(
                    table_view(table@),
                    d@,
                ));
            }
        } else {
            proof {
                assert(tbl_inval(orig, d@) =~= table_view(out@) + tbl_inval(
                    table_view(table@),
                    d@,
                ));
            }
        }
    }
    proof {
        assert(table_view(table@) =~= Seq::<(VKey, Seq<char>)>::empty());
        assert(tbl_inval(table_view(table@), d@) =~= Seq::<(VKey, Seq<char>)>::empty());
        assert(tbl_inval(orig, d@) =~= table_view(out@));
    }
    *table = out;
}

/// Drop the canonical-name bindings a redefinition makes stale.
fn vmap_invalidate(vmap: &mut Vec<(String, String)>, d: &String)
    ensures
        vmap_view(final(vmap)@) == vmap_inval(vmap_view(old(vmap)@), d@),
{
    let ghost orig = vmap_view(vmap@);
    let mut out: Vec<(String, String)> = Vec::new();
    proof {
        assert(vmap_inval(orig, d@) =~= vmap_view(out@) + vmap_inval(vmap_view(vmap@), d@));
    }
    while vmap.len() > 0
        invariant
            vmap_inval(orig, d@) == vmap_view(out@) + vmap_inval(vmap_view(vmap@), d@),
        decreases vmap@.len(),
    {
        let ghost prev = vmap_view(vmap@);
        let e = vmap.remove(0);
        proof {
            assert(vmap_view(vmap@) =~= prev.drop_first());
            assert((e.0@, e.1@) == prev.first());
        }
        let stale = e.0 == *d || e.1 == *d;
        if !stale {
            let ghost outprev = vmap_view(out@);
            out.push(e);
            proof {
                assert(vmap_view(out@) =~= outprev.push(prev.first()));
                assert(vmap_inval(orig, d@) =~= vmap_view(out@) + vmap_inval(
                    vmap_view(vmap@),
                    d@,
                ));
            }
        } else {
            proof {
                assert(vmap_inval(orig, d@) =~= vmap_view(out@) + vmap_inval(
                    vmap_view(vmap@),
                    d@,
                ));
            }
        }
    }
    proof {
        assert(vmap_view(vmap@) =~= Seq::<(Seq<char>, Seq<char>)>::empty());
        assert(vmap_inval(vmap_view(vmap@), d@) =~= Seq::<(Seq<char>, Seq<char>)>::empty());
        assert(vmap_inval(orig, d@) =~= vmap_view(out@));
    }
    *vmap = out;
}

/// Whether this operation may be value numbered.
fn numberable(op: ValueOp) -> (r: bool)
    ensures
        r == spec_numberable(op),
{
    !(op == ValueOp::Call || op == ValueOp::Phi || op == ValueOp::Alloc || op == ValueOp::Load
        || op == ValueOp::Id)
}

} // verus!

verus! {

proof fn lemma_lvn_scan_len(instrs: Seq<LvnInstr>, st: LvnState, j: int)
    requires
        0 <= j <= instrs.len(),
    ensures
        lvn_scan(instrs, st, j).len() == instrs.len() - j,
    decreases instrs.len() - j,
{
    if j < instrs.len() {
        let (st2, _) = lvn_step(st, instrs[j]);
        lemma_lvn_scan_len(instrs, st2, j + 1);
    }
}

/// Value number one block's instructions in place.
fn lvn_block(instrs: &mut Vec<Code>)
    ensures
        final(instrs)@.len() == old(instrs)@.len(),
        forall|j: int|
            0 <= j < final(instrs)@.len() ==> rewrite_ok(
                old(instrs)@[j],
                #[trigger] final(instrs)@[j],
                lvn_scan(old(instrs)@.map_values(|c: Code| lvn_instr(c)), lvn_init(), 0)[j],
            ),
{
    let ghost orig = instrs@;
    let ghost proj = orig.map_values(|c: Code| lvn_instr(c));
    let ghost full = lvn_scan(proj, lvn_init(), 0);
    let mut table: Vec<(ValKey, String)> = Vec::new();
    let mut vmap: Vec<(String, String)> = Vec::new();
    let total = instrs.len();
    let mut j: usize = 0;
    proof {
        assert(table_view(table@) =~= Seq::<(VKey, Seq<char>)>::empty());
        assert(vmap_view(vmap@) =~= Seq::<(Seq<char>, Seq<char>)>::empty());
        assert((LvnState { table: table_view(table@), vmap: vmap_view(vmap@) }) =~~= lvn_init());
        assert(full.skip(0) =~= full);
        lemma_lvn_scan_len(proj, lvn_init(), 0);
    }
    while j < total
        invariant
            total == instrs@.len(),
            orig.len() == total,
            proj == orig.map_values(|c: Code| lvn_instr(c)),
            full == lvn_scan(proj, lvn_init(), 0),
            full.len() == total,
            j <= total,
            forall|k: int| j <= k < total ==> #[trigger] instrs@[k] == orig[k],
            forall|k: int| 0 <= k < j ==> rewrite_ok(orig[k], #[trigger] instrs@[k], full[k]),
            lvn_scan(
                proj,
                LvnState { table: table_view(table@), vmap: vmap_view(vmap@) },
                j as int,
            ) == full.skip(j as int),
        decreases total - j,
    {
        let ghost st_prev = LvnState { table: table_view(table@), vmap: vmap_view(vmap@) };
        let ghost step_res = lvn_step(st_prev, proj[j as int]);
        proof {
            assert(proj[j as int] == lvn_instr(orig[j as int]));
            assert(lvn_scan(proj, st_prev, j as int) == seq![step_res.1] + lvn_scan(
                proj,
                step_res.0,
                j as int + 1,
            ));
            assert(full[j as int] == full.skip(j as int)[0]);
            assert(full[j as int] == step_res.1);
            assert(full.skip(j as int).drop_first() =~= full.skip(j as int + 1));
            assert(lvn_scan(proj, step_res.0, j as int + 1) =~= (seq![step_res.1] + lvn_scan(
                proj,
                step_res.0,
                j as int + 1,
            )).drop_first());
            assert(lvn_scan(proj, step_res.0, j as int + 1) == full.skip(j as int + 1));
        }
        let ghost before_remove = instrs@;
        let old_instr = instrs.remove(j);
        proof {
            assert(old_instr == orig[j as int]);
        }
        let new_instr: Code = match old_instr {
            Code::Instruction(Instr::Constant { dest, const_type, value }) => {
                let key = ValKey::KConst(value);
                let found = tbl_lookup(&table, &key);
                match found {
                    Some(cv) => {
                        if !(cv == dest) {
                            tbl_invalidate(&mut table, &dest);
                            vmap_invalidate(&mut vmap, &dest);
                            vmap.push((dest.clone(), cv.clone()));
                            proof {
                                assert(vmap_view(vmap@) =~= step_res.0.vmap);
                                assert(table_view(table@) =~= step_res.0.table);
                            }
                            let mut new_args: Vec<String> = Vec::new();
                            new_args.push(cv);
                            proof {
                                assert(name_views(new_args@) =~= seq![step_res.1->Copy_src]);
                            }
                            Code::Instruction(Instr::Value {
                                op: ValueOp::Id,
                                dest,
                                val_type: const_type,
                                args: new_args,
                                funcs: Vec::new(),
                                labels: Vec::new(),
                            })
                        } else {
                            tbl_invalidate(&mut table, &dest);
                            vmap_invalidate(&mut vmap, &dest);
                            table.push((key, dest.clone()));
                            proof {
                                assert(table_view(table@) =~= step_res.0.table);
                                assert(vmap_view(vmap@) =~= step_res.0.vmap);
                            }
                            Code::Instruction(Instr::Constant { dest, const_type, value })
                        }
                    },
                    None => {
                        tbl_invalidate(&mut table, &dest);
                        vmap_invalidate(&mut vmap, &dest);
                        table.push((key, dest.clone()));
                        proof {
                            assert(table_view(table@) =~= step_res.0.table);
                            assert(vmap_view(vmap@) =~= step_res.0.vmap);
                        }
                        Code::Instruction(Instr::Constant { dest, const_type, value })
                    },
                }
            },
            Code::Instruction(Instr::Value { op, dest, val_type, args, funcs, labels }) => {
                let cargs = canon_args_exec(&vmap, &args);
                if numberable(op) {
                    let key = ValKey::KOp(op, cargs);
                    let found = tbl_lookup(&table, &key);
                    match found {
                        Some(cv) => {
                            if !(cv == dest) {
                                tbl_invalidate(&mut table, &dest);
                                vmap_invalidate(&mut vmap, &dest);
                                vmap.push((dest.clone(), cv.clone()));
                                proof {
                                    assert(vmap_view(vmap@) =~= step_res.0.vmap);
                                    assert(table_view(table@) =~= step_res.0.table);
                                }
                                let mut new_args: Vec<String> = Vec::new();
                                new_args.push(cv);
                                proof {
                                    assert(name_views(new_args@) =~= seq![step_res.1->Copy_src]);
                                }
                                Code::Instruction(Instr::Value {
                                    op: ValueOp::Id,
                                    dest,
                                    val_type,
                                    args: new_args,
                                    funcs: Vec::new(),
                                    labels: Vec::new(),
                                })
                            } else {
                                let cargs2 = canon_args_exec(&vmap, &args);
                                tbl_invalidate(&mut table, &dest);
                                vmap_invalidate(&mut vmap, &dest);
                                table.push((key, dest.clone()));
                                proof {
                                    assert(table_view(table@) =~= step_res.0.table);
                                    assert(vmap_view(vmap@) =~= step_res.0.vmap);
                                }
                                Code::Instruction(Instr::Value {
                                    op,
                                    dest,
                                    val_type,
                                    args: cargs2,
                                    funcs,
                                    labels,
                                })
                            }
                        },
                        None => {
                            let cargs2 = canon_args_exec(&vmap, &args);
                            tbl_invalidate(&mut table, &dest);
                            vmap_invalidate(&mut vmap, &dest);
                            table.push((key, dest.clone()));
                            proof {
                                assert(table_view(table@) =~= step_res.0.table);
                                assert(vmap_view(vmap@) =~= step_res.0.vmap);
                            }
                            Code::Instruction(Instr::Value {
                                op,
                                dest,
                                val_type,
                                args: cargs2,
                                funcs,
                                labels,
                            })
                        },
                    }
                } else {
                    tbl_invalidate(&mut table, &dest);
                    vmap_invalidate(&mut vmap, &dest);
                    proof {
                        assert(table_view(table@) =~= step_res.0.table);
                        assert(vmap_view(vmap@) =~= step_res.0.vmap);
                    }
                    Code::Instruction(Instr::Value {
                        op,
                        dest,
                        val_type,
                        args: cargs,
                        funcs,
                        labels,
                    })
                }
            },
            Code::Instruction(Instr::Effect { op, args, funcs, labels }) => {
                let cargs = canon_args_exec(&vmap, &args);
                proof {
                    assert(table_view(table@) =~= step_res.0.table);
                    assert(vmap_view(vmap@) =~= step_res.0.vmap);
                }
                Code::Instruction(Instr::Effect { op, args: cargs, funcs, labels })
            },
            Code::Label { label } => {
                proof {
                    assert(table_view(table@) =~= step_res.0.table);
                    assert(vmap_view(vmap@) =~= step_res.0.vmap);
                }
                Code::Label { label }
            },
        };
        proof {
            assert(rewrite_ok(orig[j as int], new_instr, step_res.1));
        }
        instrs.insert(j, new_instr);
        proof {
            assert(instrs@ =~= before_remove.update(j as int, new_instr));
        }
        j = j + 1;
    }
}

} // verus!

verus! {

/// Whether a code item reads the given name as an argument.
fn uses_exec(c: &Code, d: &String) -> (r: bool)
    ensures
        r == uses_name(lvn_instr(*c), d@),
{
    match c {
        Code::Instruction(Instr::Value { args, .. }) => name_list_contains(args, d),
        Code::Instruction(Instr::Effect { args, .. }) => name_list_contains(args, d),
        _ => false,
    }
}

/// Whether a name list holds the given name.
fn name_list_contains(args: &Vec<String>, d: &String) -> (r: bool)
    ensures
        r == name_views(args@).contains(d@),
{
    let mut i: usize = 0;
    while i < args.len()
        invariant
            i <= args@.len(),
            forall|j: int| 0 <= j < i ==> (#[trigger] args@[j])@ != d@,
        decreases args@.len() - i,
    {
        let hit = args[i] == *d;
        if hit {
            proof {
                assert(name_views(args@)[i as int] == d@);
            }
            return true;
        }
        i = i + 1;
    }
    proof {
        if name_views(args@).contains(d@) {
            let j = choose|j: int|
                0 <= j < name_views(args@).len() && #[trigger] name_views(args@)[j] == d@;
            assert(args@[j]@ == d@);
            assert(false);
        }
    }
    false
}

/// Whether a code item defines the given name.
fn defines_exec(c: &Code, d: &String) -> (r: bool)
    ensures
        r == (def_of(lvn_instr(*c)) == Some(d@)),
{
    match c {
        Code::Instruction(Instr::Constant { dest, .. }) => *dest == *d,
        Code::Instruction(Instr::Value { dest, .. }) => *dest == *d,
        _ => false,
    }
}

/// Tombstone every pure definition of a block whose destination is never read
/// by a later instruction of the same block and whose value cannot escape the
/// block.
fn local_dce_block(instrs: &mut Vec<Code>, escapes: bool)
    ensures
        final(instrs)@.len() == old(instrs)@.len(),
        forall|j: int|
            0 <= j < final(instrs)@.len() ==> if local_dead(
                old(instrs)@.map_values(|c: Code| lvn_instr(c)),
                j,
                escapes,
            ) {
                spec_is_tombstone(#[trigger] final(instrs)@[j])
            } else {
                final(instrs)@[j] == old(instrs)@[j]
            },
{
    let ghost orig = instrs@;
    let ghost proj = orig.map_values(|c: Code| lvn_instr(c));
    let total = instrs.len();
    let mut j: usize = 0;
    while j < total
        invariant
            total == instrs@.len(),
            orig.len() == total,
            proj == orig.map_values(|c: Code| lvn_instr(c)),
            j <= total,
            forall|k: int| j <= k < total ==> #[trigger] instrs@[k] == orig[k],
            forall|k: int|
                0 <= k < j ==> if local_dead(proj, k, escapes) {
                    spec_is_tombstone(#[trigger] instrs@[k])
                } else {
                    instrs@[k] == orig[k]
                },
        decreases total - j,
    {
        let can_drop = match &instrs[j] {
            Code::Instruction(Instr::Constant { .. }) => true,
            Code::Instruction(Instr::Value { op, .. }) => *op != ValueOp::Call,
            _ => false,
        };
        proof {
            assert(instrs@[j as int] == orig[j as int]);
            assert(can_drop == droppable(proj[j as int]));
        }
        if can_drop {
            let dest = match &instrs[j] {
                Code::Instruction(Instr::Constant { dest, .. }) => dest.clone(),
                Code::Instruction(Instr::Value { dest, .. }) => dest.clone(),
                _ => String::new(),
            };
            proof {
                assert(def_of(proj[j as int]) == Some(dest@));
            }
            let mut used = false;
            let mut redef = false;
            let mut j2: usize = j + 1;
            while j2 < total
                invariant
                    total == instrs@.len(),
                    orig.len() == total,
                    proj == orig.map_values(|c: Code| lvn_instr(c)),
                    j < j2 <= total,
                    forall|k: int| j <= k < total ==> #[trigger] instrs@[k] == orig[k],
                    used == (exists|k: int|
                        j < k < j2 && uses_name(#[trigger] proj[k], dest@)),
                    redef == (exists|k: int|
                        j < k < j2 && def_of(#[trigger] proj[k]) == Some(dest@)),
                decreases total - j2,
            {
                let u = uses_exec(&instrs[j2], &dest);
                let r = defines_exec(&instrs[j2], &dest);
                proof {
                    assert(instrs@[j2 as int] == orig[j2 as int]);
                    assert(lvn_instr(orig[j2 as int]) == proj[j2 as int]);
                }
                if u {
                    used = true;
                }
                if r {
                    redef = true;
                }
                j2 = j2 + 1;
            }
            proof {
                assert(used == used_later(proj, j as int, dest@));
                assert(redef == redef_later(proj, j as int, dest@));
            }
            if !used && (redef || !escapes) {
                let ghost before = instrs@;
                let t = make_tombstone();
                instrs.set(j, t);
                proof {
                    assert(instrs@ =~= before.update(j as int, t));
                    assert(local_dead(proj, j as int, escapes));
                }
            } else {
                proof {
                    assert(!local_dead(proj, j as int, escapes));
                }
            }
        } else {
            proof {
                assert(!local_dead(proj, j as int, escapes));
            }
        }
        j = j + 1;
    }
}

/// Whether the block's value may be read after it ends: some successor is
/// live or lies beyond the block sequence.
fn escapes_exec(blocks: &Vec<BasicBlock>, i: usize) -> (r: bool)
    requires
        i < blocks@.len(),
    ensures
        r == block_escapes(block_views(blocks@), i as int),
{
    let ghost bs = block_views(blocks@);
    let b = &blocks[i];
    proof {
        assert(bs[i as int] == b@);
    }
    let mut k: usize = 0;
    while k < b.out_edges.len()
        invariant
            i < blocks@.len(),
            bs == block_views(blocks@),
            b@ == bs[i as int],
            k <= b.out_edges@.len(),
            forall|kk: int|
                0 <= kk < k ==> !(b.out_edges@[kk] >= blocks@.len() || bs[#[trigger] b.out_edges@[kk] as int].live),
        decreases b.out_edges@.len() - k,
    {
        let t = b.out_edges[k];
        let hit = if t >= blocks.len() {
            true
        } else {
            blocks[t].live
        };
        if hit {
            proof {
                assert(bs[i as int].out_edges.contains(t as int)) by {
                    assert(b.out_edges@[k as int] as int == t as int);
                }
            }
            return true;
        }
        k = k + 1;
    }
    proof {
        if block_escapes(bs, i as int) {
            let t = choose|t: int|
                #[trigger] bs[i as int].out_edges.contains(t) && (t >= bs.len() || (0 <= t
                    && bs[t].live));
            let kk = choose|kk: int|
                0 <= kk < b.out_edges@.len() && b.out_edges@[kk] as int == t;
            assert(false);
        }
    }
    false
}

proof fn lemma_scan_no_tomb(instrs: Seq<LvnInstr>, st: LvnState, j: int)
    requires
        0 <= j <= instrs.len(),
    ensures
        forall|k: int|
            0 <= k < lvn_scan(instrs, st, j).len() ==> !(#[trigger] lvn_scan(instrs, st, j)[k]
                matches LvnOut::Tomb),
    decreases instrs.len() - j,
{
    if j < instrs.len() {
        let (st2, out) = lvn_step(st, instrs[j]);
        lemma_scan_no_tomb(instrs, st2, j + 1);
        assert forall|k: int| 0 <= k < lvn_scan(instrs, st, j).len() implies !(#[trigger] lvn_scan(
            instrs,
            st,
            j,
        )[k] matches LvnOut::Tomb) by {
            if k == 0 {
                assert(lvn_scan(instrs, st, j)[0] == out);
                assert(!(out matches LvnOut::Tomb));
            } else {
                assert(lvn_scan(instrs, st, j)[k] == lvn_scan(instrs, st2, j + 1)[k - 1]);
            }
        }
    }
}

proof fn lemma_rewrite_proj(a: Code, b: Code, out: LvnOut)
    requires
        rewrite_ok(a, b, out),
        !(out matches LvnOut::Tomb),
    ensures
        lvn_instr(b) == apply_out(lvn_instr(a), out),
{
    match out {
        LvnOut::Keep { args } => {
            match a {
                Code::Instruction(Instr::Constant { .. }) => {},
                Code::Label { .. } => {},
                Code::Instruction(Instr::Value { .. }) => {
                    assert(lvn_instr(b) =~= apply_out(lvn_instr(a), out));
                },
                Code::Instruction(Instr::Effect { .. }) => {
                    assert(lvn_instr(b) =~= apply_out(lvn_instr(a), out));
                },
            }
        },
        LvnOut::Copy { src } => {
            assert(lvn_instr(b) =~= apply_out(lvn_instr(a), out));
        },
        LvnOut::Tomb => {},
    }
}

/// Run local value numbering and then local dead-code elimination on every
/// live block of a function, each block independently: recomputation of a
/// value already computed in the same block becomes a copy of the earlier
/// result, later argument names are redirected to the canonical variable, and
/// a pure definition that is dead within the block and cannot escape it is
/// tombstoned. Dead blocks, block structure, edges and liveness stay as they
/// were.
pub fn lvn_dce(fun: &mut BBFun)
    ensures
        final(fun).function == old(fun).function,
        lvn_applied(block_views(old(fun).blocks@), block_views(final(fun).blocks@)),
{
    let ghost o = block_views(old(fun).blocks@);
    let total = fun.blocks.len();
    let mut i: usize = 0;
    while i < total
        invariant
            fun.function == old(fun).function,
            total == fun.blocks@.len(),
            o.len() == total,
            i <= total,
            forall|ii: int|
                0 <= ii < total ==> {
                    &&& (#[trigger] block_views(fun.blocks@)[ii]).label == o[ii].label
                    &&& block_views(fun.blocks@)[ii].label_instr == o[ii].label_instr
                    &&& block_views(fun.blocks@)[ii].live == o[ii].live
                    &&& block_views(fun.blocks@)[ii].in_edges == o[ii].in_edges
                    &&& block_views(fun.blocks@)[ii].out_edges == o[ii].out_edges
                },
            forall|ii: int|
                i <= ii < total ==> (#[trigger] block_views(fun.blocks@)[ii]).instrs
                    == o[ii].instrs,
            forall|ii: int|
                0 <= ii < i && !o[ii].live ==> (#[trigger] block_views(fun.blocks@)[ii]).instrs
                    == o[ii].instrs,
            forall|ii: int|
                0 <= ii < i && o[ii].live ==> lvn_block_applied(
                    o[ii].instrs,
                    (#[trigger] block_views(fun.blocks@)[ii]).instrs,
                    block_escapes(o, ii),
                ),
        decreases total - i,
    {
        let is_live = fun.blocks[i].live;
        if is_live {
            let esc = escapes_exec(&fun.blocks, i);
            proof {
                assert(block_escapes(block_views(fun.blocks@), i as int) == block_escapes(
                    o,
                    i as int,
                )) by {
                    let bs = block_views(fun.blocks@);
                    if block_escapes(bs, i as int) {
                        let t = choose|t: int|
                            #[trigger] bs[i as int].out_edges.contains(t) && (t >= bs.len() || (0
                                <= t && bs[t].live));
                        assert(o[i as int].out_edges.contains(t));
                        assert(block_escapes(o, i as int));
                    }
                    if block_escapes(o, i as int) {
                        let t = choose|t: int|
                            #[trigger] o[i as int].out_edges.contains(t) && (t >= o.len() || (0
                                <= t && o[t].live));
                        assert(bs[i as int].out_edges.contains(t));
                        assert(block_escapes(bs, i as int));
                    }
                }
            }
            let ghost before = block_views(fun.blocks@);
            let ghost old_instrs = o[i as int].instrs;
            let ghost proj = old_instrs.map_values(|c: Code| lvn_instr(c));
            let ghost outs = lvn_scan(proj, lvn_init(), 0);
            let b = &mut fun.blocks[i];
            proof {
                assert(b@ == before[i as int]);
                assert(b.instrs@ == old_instrs);
            }
            lvn_block(&mut b.instrs);
            let ghost mid = b.instrs@;
            local_dce_block(&mut b.instrs, esc);
            proof {
                lemma_lvn_scan_len(proj, lvn_init(), 0);
                lemma_scan_no_tomb(proj, lvn_init(), 0);
                let rew = rewritten(proj, outs);
                assert forall|j: int| 0 <= j < mid.len() implies lvn_instr(#[trigger] mid[j])
                    == rew[j] by {
                    assert(rewrite_ok(old_instrs[j], mid[j], outs[j]));
                    lemma_rewrite_proj(old_instrs[j], mid[j], outs[j]);
                    assert(proj[j] == lvn_instr(old_instrs[j]));
                }
                assert(mid.map_values(|c: Code| lvn_instr(c)) =~= rew);
                assert(lvn_block_applied(old_instrs, b.instrs@, esc)) by {
                    assert forall|j: int| 0 <= j < b.instrs@.len() implies (if local_dead(
                        rew,
                        j,
                        esc,
                    ) {
                        spec_is_tombstone(#[trigger] b.instrs@[j])
                    } else {
                        rewrite_ok(old_instrs[j], b.instrs@[j], outs[j])
                    }) by {
                        if local_dead(rew, j, esc) {
                            assert(spec_is_tombstone(b.instrs@[j]));
                        } else {
                            assert(b.instrs@[j] == mid[j]);
                        }
                    }
                }
                assert(blocks_ok_after(before, block_views(fun.blocks@), i as int));
            }
        }
        i = i + 1;
    }
}

/// Whether a block-sequence update touched only block i's instructions.
pub open spec fn blocks_ok_after(before: Seq<BlockModel>, now: Seq<BlockModel>, i: int) -> bool {
    &&& now.len() == before.len()
    &&& forall|x: int| 0 <= x < now.len() && x != i ==> #[trigger] now[x] == before[x]
    &&& now[i].label == before[i].label
    &&& now[i].label_instr == before[i].label_instr
    &&& now[i].live == before[i].live
    &&& now[i].in_edges == before[i].in_edges
    &&& now[i].out_edges == before[i].out_edges
}

} // verus!

verus! {

proof fn lemma_canon_empty(xs: Seq<Seq<char>>)
    ensures
        canon_args(Seq::empty(), xs) == xs,
{
    assert forall|k: int| 0 <= k < xs.len() implies canon_args(Seq::empty(), xs)[k] == xs[k] by {
        assert(vget(Seq::empty(), xs[k]) is None);
    }
    assert(canon_args(Seq::empty(), xs) =~= xs);
}

proof fn lemma_lvn_scan_shift(s: Seq<LvnInstr>, st: LvnState, j: int)
    requires
        1 <= j <= s.len(),
    ensures
        lvn_scan(s, st, j) == lvn_scan(s.drop_first(), st, j - 1),
    decreases s.len() - j,
{
    if j < s.len() {
        assert(s.drop_first()[j - 1] == s[j]);
        let (st2, _) = lvn_step(st, s[j]);
        lemma_lvn_scan_shift(s, st2, j + 1);
        assert(lvn_scan(s, st, j) =~= lvn_scan(s.drop_first(), st, j - 1));
    } else {
        assert(lvn_scan(s, st, j) =~= Seq::<LvnOut>::empty());
        assert(lvn_scan(s.drop_first(), st, j - 1) =~= Seq::<LvnOut>::empty());
    }
}

/// Local value numbering is idempotent: numbering an already-numbered block a
/// second time changes no instruction. The second run starts from the same
/// empty table; it finds every argument already canonical and every recorded
/// value computed by the variable that holds it, so it keeps every
/// instruction as it stands.
pub proof fn lemma_lvn_idempotent(proj: Seq<LvnInstr>)
    ensures
        ({
            let outs1 = lvn_scan(proj, lvn_init(), 0);
            let s2 = rewritten(proj, outs1);
            rewritten(s2, lvn_scan(s2, lvn_init(), 0)) == s2
        }),
{
    lemma_idem(proj, lvn_init());
}

proof fn lemma_idem(proj: Seq<LvnInstr>, st1: LvnState)
    ensures
        ({
            let outs1 = lvn_scan(proj, st1, 0);
            let s2 = rewritten(proj, outs1);
            let st2 = LvnState { table: st1.table, vmap: Seq::empty() };
            rewritten(s2, lvn_scan(s2, st2, 0)) == s2
        }),
    decreases proj.len(),
{
    let outs1 = lvn_scan(proj, st1, 0);
    let s2 = rewritten(proj, outs1);
    let st2 = LvnState { table: st1.table, vmap: Seq::empty() };
    if proj.len() == 0 {
        assert(lvn_scan(s2, st2, 0) =~= Seq::<LvnOut>::empty());
        assert(rewritten(s2, lvn_scan(s2, st2, 0)) =~= s2);
    } else {
        let li = proj[0];
        let (st1b, out1) = lvn_step(st1, li);
        assert(outs1 == seq![out1] + lvn_scan(proj, st1b, 1));
        lemma_lvn_scan_shift(proj, st1b, 1);
        let rest = proj.drop_first();
        let outs1r = lvn_scan(rest, st1b, 0);
        assert(lvn_scan(proj, st1b, 1) == outs1r);
        lemma_lvn_scan_len(rest, st1b, 0);
        lemma_lvn_scan_len(proj, st1, 0);

        let e2 = s2[0];
        assert(e2 == apply_out(li, out1));
        let (st2b, out2) = lvn_step(st2, e2);
        // the second run keeps the head instruction; its next state holds the
        // first run's table and an empty canonical-name map
        assert(apply_out(e2, out2) == e2 && st2b.table == st1b.table && st2b.vmap.len() == 0) by {
            match li {
                LvnInstr::LConst { dest, value } => {
                    let key = VKey::VConst(value);
                    match tbl_get(st1.table, key) {
                        Some(cv) => {
                            if cv != dest {
                                // first run rewrote this into a copy; the
                                // second run sees an identity move
                                assert(e2 == (LvnInstr::LVal {
                                    op: ValueOp::Id,
                                    dest,
                                    args: seq![cv],
                                }));
                                lemma_canon_empty(seq![cv]);
                                assert(apply_out(e2, out2) =~= e2);
                            } else {
                                assert(e2 == li);
                                assert(st2b.table =~= st1b.table);
                            }
                        },
                        None => {
                            assert(e2 == li);
                            assert(st2b.table =~= st1b.table);
                        },
                    }
                },
                LvnInstr::LVal { op, dest, args } => {
                    let cargs = canon_args(st1.vmap, args);
                    lemma_canon_empty(cargs);
                    if spec_numberable(op) {
                        let key = VKey::VOp(op, cargs);
                        match tbl_get(st1.table, key) {
                            Some(cv) => {
                                if cv != dest {
                                    assert(e2 == (LvnInstr::LVal {
                                        op: ValueOp::Id,
                                        dest,
                                        args: seq![cv],
                                    }));
                                    lemma_canon_empty(seq![cv]);
                                    assert(apply_out(e2, out2) =~= e2);
                                } else {
                                    assert(e2 == (LvnInstr::LVal { op, dest, args: cargs }));
                                    assert(canon_args(Seq::empty(), cargs) == cargs);
                                    assert(apply_out(e2, out2) =~= e2);
                                    assert(st2b.table =~= st1b.table);
                                }
                            },
                            None => {
                                assert(e2 == (LvnInstr::LVal { op, dest, args: cargs }));
                                assert(canon_args(Seq::empty(), cargs) == cargs);
                                assert(apply_out(e2, out2) =~= e2);
                                assert(st2b.table =~= st1b.table);
                            },
                        }
                    } else {
                        assert(e2 == (LvnInstr::LVal { op, dest, args: cargs }));
                        assert(canon_args(Seq::empty(), cargs) == cargs);
                        assert(apply_out(e2, out2) =~= e2);
                        assert(st2b.table =~= st1b.table);
                    }
                },
                LvnInstr::LEff { args } => {
                    let cargs = canon_args(st1.vmap, args);
                    lemma_canon_empty(cargs);
                    assert(e2 == (LvnInstr::LEff { args: cargs }));
                    assert(canon_args(Seq::empty(), cargs) == cargs);
                    assert(apply_out(e2, out2) =~= e2);
                },
                LvnInstr::LLabel => {
                    assert(e2 == li);
                },
            }
        }
        lemma_idem(rest, st1b);
        let s2r = rewritten(rest, outs1r);
        assert(s2.drop_first() =~= s2r) by {
            assert forall|k: int| 0 <= k < s2.drop_first().len() implies s2.drop_first()[k]
                == s2r[k] by {
                assert(s2.drop_first()[k] == s2[k + 1]);
                assert(s2[k + 1] == apply_out(proj[k + 1], outs1[k + 1]));
                assert(outs1[k + 1] == outs1r[k]);
                assert(rest[k] == proj[k + 1]);
            }
        }
        let st2r = LvnState { table: st1b.table, vmap: Seq::empty() };
        assert(st2b =~~= st2r) by {
            assert(st2b.vmap =~= Seq::<(Seq<char>, Seq<char>)>::empty());
        }
        let outs2 = lvn_scan(s2, st2, 0);
        assert(outs2 == seq![out2] + lvn_scan(s2, st2b, 1));
        lemma_lvn_scan_shift(s2, st2b, 1);
        assert(lvn_scan(s2, st2b, 1) == lvn_scan(s2r, st2r, 0));
        lemma_lvn_scan_len(s2r, st2r, 0);
        lemma_lvn_scan_len(s2, st2, 0);
        assert(rewritten(s2, outs2) =~= s2) by {
            assert forall|k: int| 0 <= k < s2.len() implies rewritten(s2, outs2)[k] == s2[k] by {
                if k == 0 {
                    assert(rewritten(s2, outs2)[0] == apply_out(s2[0], out2));
                } else {
                    assert(outs2[k] == lvn_scan(s2r, st2r, 0)[k - 1]);
                    assert(rewritten(s2r, lvn_scan(s2r, st2r, 0)) == s2r);
                    assert(rewritten(s2r, lvn_scan(s2r, st2r, 0))[k - 1] == s2r[k - 1]);
                    assert(s2[k] == s2r[k - 1]);
                }
            }
        }
    }
}

} // verus!
