use crate::ir::{name_views, spec_is_terminator, spec_is_tombstone, spec_is_transfer, Code,
    EffectOp, FnArg, Instr, IrFunction, Program, Type};
use vstd::prelude::*;

verus! {

/// The name of a basic block. The synthetic entry block and the anonymous
/// blocks opened after a control transfer carry reserved names that no user
/// label can collide with, by construction.
#[derive(Debug, PartialEq, Eq)]
pub enum BlockLabel {
    /// The synthetic entry block of a function.
    Entry,
    /// An anonymous block opened after a branch or jump, numbered by a
    /// per-function counter.
    Fresh(usize),
    /// A block introduced by a label item of the input stream.
    Named(String),
}

/// A basic block: a maximal straight-line run of instructions.
#[derive(Debug, PartialEq, Eq)]
pub struct BasicBlock {
    pub label: BlockLabel,
    /// The label item that introduced the block, if any; re-emitted by the
    /// linearizer ahead of the block's instructions.
    pub label_instr: Option<Code>,
    /// Instructions only: label items never stand here.
    pub instrs: Vec<Code>,
    pub live: bool,
    /// Indices of predecessor blocks in the owning function's block sequence.
    pub in_edges: Vec<usize>,
    /// Indices of successor blocks; may contain the out-of-range virtual exit
    /// index (the number of blocks) when control falls off the end.
    pub out_edges: Vec<usize>,
}

/// The function metadata needed to rebuild a valid function after
/// optimization.
#[derive(Debug, PartialEq, Eq)]
pub struct FnMeta {
    pub name: String,
    pub args: Vec<FnArg>,
    pub return_type: Option<Type>,
}

/// One function split into basic blocks.
#[derive(Debug, PartialEq, Eq)]
pub struct BBFun {
    pub blocks: Vec<BasicBlock>,
    pub function: FnMeta,
}

/// The mathematical model of a basic block: edge sets as sets of indices,
/// the instruction list as a sequence.
#[verifier::ext_equal]
pub ghost struct BlockModel {
    pub label: BlockLabel,
    pub label_instr: Option<Code>,
    pub instrs: Seq<Code>,
    pub live: bool,
    pub in_edges: Set<int>,
    pub out_edges: Set<int>,
}

/// The set of indices an edge vector holds.
pub open spec fn edge_set(v: Seq<usize>) -> Set<int> {
    Set::new(|t: int| exists|k: int| 0 <= k < v.len() && v[k] as int == t)
}

impl View for BasicBlock {
    type V = BlockModel;

    open spec fn view(&self) -> BlockModel {
        BlockModel {
            label: self.label,
            label_instr: self.label_instr,
            instrs: self.instrs@,
            live: self.live,
            in_edges: edge_set(self.in_edges@),
            out_edges: edge_set(self.out_edges@),
        }
    }
}

/// The models of a sequence of blocks.
pub open spec fn block_views(bs: Seq<BasicBlock>) -> Seq<BlockModel> {
    bs.map_values(|b: BasicBlock| b@)
}

/// A block model with no instructions, no edges, marked live.
pub open spec fn empty_block_model(label: BlockLabel) -> BlockModel {
    BlockModel {
        label,
        label_instr: None,
        instrs: Seq::empty(),
        live: true,
        in_edges: Set::empty(),
        out_edges: Set::empty(),
    }
}

/// The model block with one more instruction at the end.
pub open spec fn push_instr(b: BlockModel, c: Code) -> BlockModel {
    BlockModel { instrs: b.instrs.push(c), ..b }
}

/// The state of the block-building scan: the closed blocks, the block being
/// filled, and the counter naming anonymous blocks.
#[verifier::ext_equal]
pub ghost struct BuildState {
    pub done: Seq<BlockModel>,
    pub cur: BlockModel,
    pub counter: usize,
}

/// The scan state a fresh function starts from.
pub open spec fn build_init() -> BuildState {
    BuildState { done: Seq::empty(), cur: empty_block_model(BlockLabel::Entry), counter: 0 }
}

/// One step of the block-building scan over a single code item.
///
/// A constant, value, or non-transfer effect instruction joins the current
/// block. A branch or jump joins it too and then closes it, opening an
/// anonymous block. A label item closes the current block (dropping it when
/// it is empty) and opens a block named by the label, remembering the label
/// item itself.
pub open spec fn build_step(st: BuildState, item: Code) -> BuildState {
    match item {
        Code::Instruction(_) => {
            if spec_is_terminator(item) {
                BuildState {
                    done: st.done.push(push_instr(st.cur, item)),
                    cur: empty_block_model(BlockLabel::Fresh(st.counter)),
                    counter: (st.counter + 1) as usize,
                }
            } else {
                BuildState { cur: push_instr(st.cur, item), ..st }
            }
        },
        Code::Label { label } => {
            let done = if st.cur.instrs.len() == 0 {
                st.done
            } else {
                st.done.push(st.cur)
            };
            BuildState {
                done,
                cur: BlockModel {
                    label: BlockLabel::Named(label),
                    label_instr: Some(item),
                    instrs: Seq::empty(),
                    live: true,
                    in_edges: Set::empty(),
                    out_edges: Set::empty(),
                },
                counter: st.counter,
            }
        },
    }
}

/// The block-building scan over a code-item sequence.
pub open spec fn build_scan(items: Seq<Code>, st: BuildState) -> BuildState
    decreases items.len(),
{
    if items.len() == 0 {
        st
    } else {
        build_scan(items.drop_first(), build_step(st, items.first()))
    }
}

/// The blocks a flat code-item sequence splits into: the scan's closed blocks
/// and then the final current block, which is always pushed, even empty.
pub open spec fn build_blocks(items: Seq<Code>) -> Seq<BlockModel> {
    let st = build_scan(items, build_init());
    st.done.push(st.cur)
}

/// Whether a code item is a branch or jump effect.
fn is_terminator(c: &Code) -> (r: bool)
    ensures
        r == spec_is_terminator(*c),
{
    match c {
        Code::Instruction(Instr::Effect { op, .. }) => {
            *op == EffectOp::Jump || *op == EffectOp::Branch
        },
        _ => false,
    }
}

/// A fresh, live, empty basic block under the given name.
fn new_block(label: BlockLabel) -> (b: BasicBlock)
    ensures
        b@ =~= empty_block_model(b.label),
        b.label == label,
{
    let b = BasicBlock {
        label,
        label_instr: None,
        instrs: Vec::new(),
        live: true,
        in_edges: Vec::new(),
        out_edges: Vec::new(),
    };
    proof {
        assert(edge_set(b.in_edges@) =~= Set::empty());
        assert(edge_set(b.out_edges@) =~= Set::empty());
    }
    b
}

/// Split one function's flat code-item sequence into basic blocks.
fn fun_to_blocks(f: IrFunction) -> (bf: BBFun)
    ensures
        bf.function.name == f.name,
        bf.function.args == f.args,
        bf.function.return_type == f.return_type,
        block_views(bf.blocks@) == build_blocks(f.instrs@),
{
    let IrFunction { name, args, return_type, instrs } = f;
    let mut items = instrs;
    let ghost all = items@;
    let initial_count = items.len();
    proof {
        assert(all.len() == initial_count);
    }
    let mut blocks: Vec<BasicBlock> = Vec::new();
    let mut cur = new_block(BlockLabel::Entry);
    let mut counter: usize = 0;
    proof {
        assert(block_views(blocks@) =~= Seq::<BlockModel>::empty());
        assert(BuildState { done: block_views(blocks@), cur: cur@, counter: counter }
            =~~= build_init());
    }
    while items.len() > 0
        invariant
            all.len() <= usize::MAX,
            counter + items@.len() <= all.len(),
            build_scan(all, build_init()) == build_scan(
                items@,
                BuildState { done: block_views(blocks@), cur: cur@, counter: counter },
            ),
        decreases items@.len(),
    {
        let ghost prev_items = items@;
        let ghost prev_st = BuildState { done: block_views(blocks@), cur: cur@, counter: counter };
        let item = items.remove(0);
        proof {
            assert(items@ =~= prev_items.drop_first());
            assert(item == prev_items.first());
        }
        let is_term = is_terminator(&item);
        match item {
            Code::Instruction(_) => {
                cur.instrs.push(item);
                if is_term {
                    blocks.push(cur);
                    cur = new_block(BlockLabel::Fresh(counter));
                    counter = counter + 1;
                }
            },
            Code::Label { label } => {
                let label_copy = label.clone();
                if cur.instrs.len() > 0 {
                    blocks.push(cur);
                }
                cur = new_block(BlockLabel::Named(label_copy));
                cur.label_instr = Some(Code::Label { label });
            },
        }
        proof {
            let st_now = BuildState { done: block_views(blocks@), cur: cur@, counter: counter };
            assert(st_now =~~= build_step(prev_st, prev_items.first())) by {
                assert(forall|bs: Seq<BasicBlock>, b: BasicBlock|
                    block_views(bs.push(b)) =~= #[trigger] block_views(bs).push(b@));
            }
        }
    }
    blocks.push(cur);
    proof {
        let st = build_scan(all, build_init());
        assert(block_views(blocks@) =~= st.done.push(st.cur)) by {
            assert(forall|bs: Seq<BasicBlock>, b: BasicBlock|
                block_views(bs.push(b)) =~= #[trigger] block_views(bs).push(b@));
        }
    }
    BBFun { blocks, function: FnMeta { name, args, return_type } }
}

/// Split every function of a program into basic blocks.
///
/// The resulting block sequences are exactly what the building scan
/// describes: scanning each function's code items in order, closing the
/// current block at each branch, jump, or label, and pushing the final
/// current block even when it is empty.
pub fn prog2bb(p: Program) -> (r: Vec<BBFun>)
    ensures
        r@.len() == p.functions@.len(),
        forall|k: int| 0 <= k < r@.len() ==> {
            &&& (#[trigger] r@[k]).function.name == p.functions@[k].name
            &&& r@[k].function.args == p.functions@[k].args
            &&& r@[k].function.return_type == p.functions@[k].return_type
            &&& block_views(r@[k].blocks@) == build_blocks(p.functions@[k].instrs@)
        },
{
    let Program { functions } = p;
    let mut functions = functions;
    let ghost all = functions@;
    let mut funs: Vec<BBFun> = Vec::new();
    while functions.len() > 0
        invariant
            funs@.len() + functions@.len() == all.len(),
            functions@ == all.skip(funs@.len() as int),
            forall|k: int| 0 <= k < funs@.len() ==> {
                &&& (#[trigger] funs@[k]).function.name == all[k].name
                &&& funs@[k].function.args == all[k].args
                &&& funs@[k].function.return_type == all[k].return_type
                &&& block_views(funs@[k].blocks@) == build_blocks(all[k].instrs@)
            },
        decreases functions@.len(),
    {
        let ghost prev = functions@;
        let f = functions.remove(0);
        proof {
            assert(f == all[funs@.len() as int]);
            assert(functions@ =~= all.skip(funs@.len() as int + 1));
        }
        let bf = fun_to_blocks(f);
        funs.push(bf);
    }
    funs
}

} // verus!

verus! {

/// Whether a block name is the given user label.
pub open spec fn is_named(l: BlockLabel, s: Seq<char>) -> bool {
    match l {
        BlockLabel::Named(n) => n@ == s,
        _ => false,
    }
}

/// Whether some block of the sequence carries the given user label.
pub open spec fn label_resolves(bs: Seq<BlockModel>, s: Seq<char>) -> bool {
    exists|j: int| 0 <= j < bs.len() && is_named(bs[j].label, s)
}

/// The index of the first block carrying the given user label.
pub open spec fn label_index(bs: Seq<BlockModel>, s: Seq<char>) -> int
    decreases bs.len(),
{
    if bs.len() == 0 {
        0
    } else if is_named(bs[0].label, s) {
        0
    } else {
        1 + label_index(bs.drop_first(), s)
    }
}

proof fn lemma_label_index_first(bs: Seq<BlockModel>, s: Seq<char>, j: int)
    requires
        0 <= j < bs.len(),
        is_named(bs[j].label, s),
        forall|i: int| 0 <= i < j ==> !is_named(bs[i].label, s),
    ensures
        label_index(bs, s) == j,
    decreases j,
{
    if j == 0 {
    } else {
        assert(!is_named(bs[0].label, s));
        lemma_label_index_first(bs.drop_first(), s, j - 1);
    }
}

/// The control-flow edge relation a block sequence induces, read off each
/// block's last instruction. A branch or jump has an edge to each block its
/// target labels name; a return has none; every other last instruction falls
/// through to the next index, which may be the out-of-range virtual exit. An
/// empty block has no outgoing edges.
pub open spec fn cfg_edge(bs: Seq<BlockModel>, s: int, t: int) -> bool {
    &&& 0 <= s < bs.len()
    &&& bs[s].instrs.len() > 0
    &&& match bs[s].instrs.last() {
        Code::Instruction(Instr::Constant { .. }) => t == s + 1,
        Code::Instruction(Instr::Value { .. }) => t == s + 1,
        Code::Instruction(Instr::Effect { op, labels, .. }) => {
            if spec_is_transfer(op) {
                exists|k: int|
                    0 <= k < labels@.len() && t == label_index(bs, labels@[k]@)
            } else if op == EffectOp::Return {
                false
            } else {
                t == s + 1
            }
        },
        Code::Label { .. } => false,
    }
}

/// The target labels a block's last instruction jumps or branches to, if any.
pub open spec fn transfer_labels(b: BlockModel) -> Seq<Seq<char>> {
    if b.instrs.len() > 0 {
        match b.instrs.last() {
            Code::Instruction(Instr::Effect { op, labels, .. }) => {
                if spec_is_transfer(op) {
                    name_views(labels@)
                } else {
                    Seq::empty()
                }
            },
            _ => Seq::empty(),
        }
    } else {
        Seq::empty()
    }
}

/// Whether every branch or jump target label of every block names some block.
pub open spec fn cfg_labels_resolve(bs: Seq<BlockModel>) -> bool {
    forall|s: int, k: int|
        0 <= s < bs.len() && 0 <= k < transfer_labels(bs[s]).len() ==> label_resolves(
            bs,
            #[trigger] transfer_labels(#[trigger] bs[s])[k],
        )
}

proof fn lemma_edge_set_push(v: Seq<usize>, x: usize)
    ensures
        edge_set(v.push(x)) =~= edge_set(v).insert(x as int),
{
    let w = v.push(x);
    assert forall|t: int| edge_set(w).contains(t) implies edge_set(v).insert(
        x as int,
    ).contains(t) by {
        let k = choose|k: int| 0 <= k < w.len() && w[k] as int == t;
        if k < v.len() {
            assert(v[k] as int == t);
        }
    }
    assert forall|t: int| edge_set(v).insert(x as int).contains(t) implies edge_set(w).contains(
        t,
    ) by {
        if t == x as int {
            assert(w[v.len() as int] as int == t);
        } else {
            let k = choose|k: int| 0 <= k < v.len() && v[k] as int == t;
            assert(w[k] as int == t);
        }
    }
}

/// Find the index of the first block carrying the given user label.
fn find_label(blocks: &Vec<BasicBlock>, name: &String) -> (r: usize)
    requires
        label_resolves(block_views(blocks@), name@),
    ensures
        r == label_index(block_views(blocks@), name@),
        r < blocks@.len(),
{
    let ghost bs = block_views(blocks@);
    let mut j: usize = 0;
    while j < blocks.len()
        invariant
            j <= blocks@.len(),
            bs == block_views(blocks@),
            label_resolves(bs, name@),
            forall|i: int| 0 <= i < j ==> !is_named(bs[i].label, name@),
        decreases blocks@.len() - j,
    {
        let found = match &blocks[j].label {
            BlockLabel::Named(s) => *s == *name,
            _ => false,
        };
        if found {
            proof {
                lemma_label_index_first(bs, name@, j as int);
            }
            return j;
        }
        j = j + 1;
    }
    proof {
        let w = choose|i: int| 0 <= i < bs.len() && is_named(bs[i].label, name@);
        assert(false);
    }
    vstd::pervasive::unreached()
}


/// The targets of one block's outgoing edges, read off its last instruction.
fn block_targets(blocks: &Vec<BasicBlock>, s: usize) -> (ts: Vec<usize>)
    requires
        s < blocks@.len(),
        cfg_labels_resolve(block_views(blocks@)),
    ensures
        edge_set(ts@) =~= Set::new(|t: int| cfg_edge(block_views(blocks@), s as int, t)),
        forall|k: int| 0 <= k < ts@.len() ==> ts@[k] <= blocks@.len(),
{
    let ghost bs = block_views(blocks@);
    let total = blocks.len();
    proof {
        assert(bs.len() == total);
    }
    let b = &blocks[s];
    proof {
        assert(bs[s as int] == b@);
    }
    let n = b.instrs.len();
    if n == 0 {
        let ts: Vec<usize> = Vec::new();
        proof {
            assert(edge_set(ts@) =~= Set::new(|t: int| cfg_edge(bs, s as int, t)));
        }
        return ts;
    }
    let last = &b.instrs[n - 1];
    proof {
        assert(*last == bs[s as int].instrs.last());
    }
    match last {
        Code::Instruction(Instr::Effect { op, args, funcs, labels }) => {
            proof {
                assert(*last == Code::Instruction(
                    Instr::Effect { op: *op, args: *args, funcs: *funcs, labels: *labels },
                ));
            }
            if *op == EffectOp::Jump || *op == EffectOp::Branch {
                let mut ts: Vec<usize> = Vec::new();
                let mut k: usize = 0;
                proof {
                    assert(transfer_labels(bs[s as int]) =~= name_views(labels@));
                    assert forall|kk: int| 0 <= kk < labels@.len() implies label_resolves(
                        bs,
                        labels@[kk]@,
                    ) by {
                        assert(label_resolves(bs, transfer_labels(bs[s as int])[kk]));
                        assert(transfer_labels(bs[s as int])[kk] == labels@[kk]@);
                    }
                }
                while k < labels.len()
                    invariant
                        k <= labels@.len(),
                        bs == block_views(blocks@),
                        forall|kk: int|
                            0 <= kk < labels@.len() ==> label_resolves(bs, #[trigger] labels@[kk]@),
                        forall|kk: int| 0 <= kk < ts@.len() ==> ts@[kk] < blocks@.len(),
                        edge_set(ts@) =~= Set::new(
                            |t: int|
                                exists|kk: int|
                                    0 <= kk < k && t == label_index(bs, #[trigger] labels@[kk]@),
                        ),
                    decreases labels@.len() - k,
                {
                    let ghost old_ts = ts@;
                    let t = find_label(blocks, &labels[k]);
                    ts.push(t);
                    k = k + 1;
                    proof {
                        lemma_edge_set_push(old_ts, t);
                        assert(edge_set(ts@) =~= Set::new(
                            |t2: int|
                                exists|kk: int|
                                    0 <= kk < k && t2 == label_index(bs, #[trigger] labels@[kk]@),
                        ));
                    }
                }
                proof {
                    assert(edge_set(ts@) =~= Set::new(|t: int| cfg_edge(bs, s as int, t)));
                }
                ts
            } else if *op == EffectOp::Return {
                let ts: Vec<usize> = Vec::new();
                proof {
                    assert(edge_set(ts@) =~= Set::new(|t: int| cfg_edge(bs, s as int, t)));
                }
                ts
            } else {
                let mut ts: Vec<usize> = Vec::new();
                ts.push(s + 1);
                proof {
                    assert forall|t: int| edge_set(ts@).contains(t) == cfg_edge(
                        bs,
                        s as int,
                        t,
                    ) by {
                        if t == s + 1 {
                            assert(ts@[0] as int == t);
                        }
                    }
                    assert(edge_set(ts@) =~= Set::new(|t: int| cfg_edge(bs, s as int, t)));
                }
                ts
            }
        },
        Code::Label { .. } => {
            let ts: Vec<usize> = Vec::new();
            proof {
                assert(edge_set(ts@) =~= Set::new(|t: int| cfg_edge(bs, s as int, t)));
            }
            ts
        },
        _ => {
            let mut ts: Vec<usize> = Vec::new();
            ts.push(s + 1);
            proof {
                assert forall|t: int| edge_set(ts@).contains(t) == cfg_edge(bs, s as int, t) by {
                    if t == s + 1 {
                        assert(ts@[0] as int == t);
                    }
                }
                assert(edge_set(ts@) =~= Set::new(|t: int| cfg_edge(bs, s as int, t)));
            }
            ts
        },
    }
}

} // verus!

verus! {

/// What the CFG builder establishes: everything but the edge sets is
/// unchanged, and the edge sets are exactly the edge relation read off the
/// old blocks — `out_edges` of a source holds each target (possibly the
/// virtual exit index), and `in_edges` of each in-range target holds the
/// source.
pub open spec fn cfg_built(o: Seq<BlockModel>, n: Seq<BlockModel>) -> bool {
    &&& n.len() == o.len()
    &&& forall|i: int|
        0 <= i < n.len() ==> {
            &&& (#[trigger] n[i]).label == o[i].label
            &&& n[i].label_instr == o[i].label_instr
            &&& n[i].instrs == o[i].instrs
            &&& n[i].live == o[i].live
        }
    &&& forall|s: int, t: int|
        0 <= s < n.len() ==> ((#[trigger] n[s].out_edges.contains(t)) <==> cfg_edge(o, s, t))
    &&& forall|t: int, s: int|
        0 <= t < n.len() ==> ((#[trigger] n[t].in_edges.contains(s)) <==> cfg_edge(o, s, t))
}

/// Whether a pair sequence holds the pair (s, t).
pub open spec fn pair_in(ps: Seq<(usize, usize)>, s: int, t: int) -> bool {
    exists|k: int| 0 <= k < ps.len() && (#[trigger] ps[k]).0 as int == s && ps[k].1 as int == t
}

/// Record one edge target in a source block's successor set.
fn push_out(blocks: &mut Vec<BasicBlock>, s: usize, t: usize)
    requires
        s < old(blocks)@.len(),
    ensures
        final(blocks)@.len() == old(blocks)@.len(),
        forall|i: int|
            0 <= i < final(blocks)@.len() && i != s ==> block_views(final(blocks)@)[i]
                == block_views(old(blocks)@)[i],
        block_views(final(blocks)@)[s as int] =~= (BlockModel {
            out_edges: block_views(old(blocks)@)[s as int].out_edges.insert(t as int),
            ..block_views(old(blocks)@)[s as int]
        }),
{
    let ghost prev = blocks@;
    let b = &mut blocks[s];
    let ghost prev_edges = b.out_edges@;
    b.out_edges.push(t);
    proof {
        lemma_edge_set_push(prev_edges, t);
        assert(blocks@ =~= prev.update(s as int, blocks@[s as int]));
        assert(forall|i: int|
            0 <= i < blocks@.len() && i != s ==> block_views(blocks@)[i] == block_views(prev)[i]);
    }
}

/// Record one edge source in a target block's predecessor set.
fn push_in(blocks: &mut Vec<BasicBlock>, t: usize, s: usize)
    requires
        t < old(blocks)@.len(),
    ensures
        final(blocks)@.len() == old(blocks)@.len(),
        forall|i: int|
            0 <= i < final(blocks)@.len() && i != t ==> block_views(final(blocks)@)[i]
                == block_views(old(blocks)@)[i],
        block_views(final(blocks)@)[t as int] =~= (BlockModel {
            in_edges: block_views(old(blocks)@)[t as int].in_edges.insert(s as int),
            ..block_views(old(blocks)@)[t as int]
        }),
{
    let ghost prev = blocks@;
    let b = &mut blocks[t];
    let ghost prev_edges = b.in_edges@;
    b.in_edges.push(s);
    proof {
        lemma_edge_set_push(prev_edges, s);
        assert(blocks@ =~= prev.update(t as int, blocks@[t as int]));
        assert(forall|i: int|
            0 <= i < blocks@.len() && i != t ==> block_views(blocks@)[i] == block_views(prev)[i]);
    }
}

/// Populate every block's predecessor and successor sets in place, reading
/// each block's last instruction, without changing block membership,
/// instructions, or liveness.
///
/// A function must have at least one block, every branch or jump target label
/// must name a block, and the edge sets must still be unpopulated.
pub fn fun2cfg(fun: &mut BBFun)
    requires
        old(fun).blocks@.len() > 0,
        cfg_labels_resolve(block_views(old(fun).blocks@)),
        forall|i: int|
            0 <= i < old(fun).blocks@.len() ==> {
                &&& (#[trigger] block_views(old(fun).blocks@)[i]).in_edges == Set::<int>::empty()
                &&& block_views(old(fun).blocks@)[i].out_edges == Set::<int>::empty()
            },
    ensures
        final(fun).function == old(fun).function,
        cfg_built(block_views(old(fun).blocks@), block_views(final(fun).blocks@)),
{
    let ghost orig = block_views(old(fun).blocks@);
    let total = fun.blocks.len();

    let mut pairs: Vec<(usize, usize)> = Vec::new();
    let mut s: usize = 0;
    while s < total
        invariant
            fun.function == old(fun).function,
            total == fun.blocks@.len(),
            orig == block_views(fun.blocks@),
            cfg_labels_resolve(orig),
            s <= total,
            forall|k: int|
                0 <= k < pairs@.len() ==> cfg_edge(
                    orig,
                    (#[trigger] pairs@[k]).0 as int,
                    pairs@[k].1 as int,
                ) && pairs@[k].1 <= total,
            forall|i: int, t: int| 0 <= i < s && cfg_edge(orig, i, t) ==> pair_in(pairs@, i, t),
        decreases total - s,
    {
        let ts = block_targets(&fun.blocks, s);
        let mut j: usize = 0;
        while j < ts.len()
            invariant
                total == fun.blocks@.len(),
                orig == block_views(fun.blocks@),
                s < total,
                j <= ts@.len(),
                edge_set(ts@) =~= Set::new(|t: int| cfg_edge(orig, s as int, t)),
                forall|k: int| 0 <= k < ts@.len() ==> ts@[k] <= total,
                forall|k: int|
                    0 <= k < pairs@.len() ==> cfg_edge(
                        orig,
                        (#[trigger] pairs@[k]).0 as int,
                        pairs@[k].1 as int,
                    ) && pairs@[k].1 <= total,
                forall|i: int, t: int| 0 <= i < s && cfg_edge(orig, i, t) ==> pair_in(pairs@, i, t),
                forall|jj: int|
                    0 <= jj < j ==> pair_in(pairs@, s as int, ts@[jj] as int),
            decreases ts@.len() - j,
        {
            let ghost prev_pairs = pairs@;
            let t = ts[j];
            pairs.push((s, t));
            proof {
                assert(edge_set(ts@).contains(t as int)) by {
                    assert(ts@[j as int] as int == t as int);
                }
                assert(cfg_edge(orig, s as int, t as int));
                assert(pairs@[pairs@.len() - 1] == (s, t));
                assert forall|i: int, tt: int| pair_in(prev_pairs, i, tt) implies pair_in(
                    pairs@,
                    i,
                    tt,
                ) by {
                    let kk = choose|kk: int|
                        0 <= kk < prev_pairs.len() && (#[trigger] prev_pairs[kk]).0 as int == i
                            && prev_pairs[kk].1 as int == tt;
                    assert(pairs@[kk] == prev_pairs[kk]);
                }
                assert(pair_in(pairs@, s as int, ts@[j as int] as int)) by {
                    assert(pairs@[pairs@.len() - 1].0 as int == s as int);
                }
            }
            j = j + 1;
        }
        proof {
            assert forall|t: int| cfg_edge(orig, s as int, t) implies pair_in(
                pairs@,
                s as int,
                t,
            ) by {
                assert(edge_set(ts@).contains(t));
                let k = choose|k: int| 0 <= k < ts@.len() && ts@[k] as int == t;
                assert(pair_in(pairs@, s as int, ts@[k] as int));
            }
        }
        s = s + 1;
    }

    let mut k: usize = 0;
    let ghost all_pairs = pairs@;
    while k < pairs.len()
        invariant
            fun.function == old(fun).function,
            total == fun.blocks@.len(),
            all_pairs == pairs@,
            block_views(fun.blocks@).len() == orig.len(),
            forall|kk: int|
                0 <= kk < all_pairs.len() ==> cfg_edge(
                    orig,
                    (#[trigger] all_pairs[kk]).0 as int,
                    all_pairs[kk].1 as int,
                ) && all_pairs[kk].1 <= total,
            k <= all_pairs.len(),
            forall|i: int|
                0 <= i < total ==> {
                    &&& (#[trigger] block_views(fun.blocks@)[i]).label == orig[i].label
                    &&& block_views(fun.blocks@)[i].label_instr == orig[i].label_instr
                    &&& block_views(fun.blocks@)[i].instrs == orig[i].instrs
                    &&& block_views(fun.blocks@)[i].live == orig[i].live
                },
            forall|i: int, t: int|
                0 <= i < total ==> ((#[trigger] block_views(fun.blocks@)[i].out_edges.contains(t))
                    <==> pair_in(all_pairs.take(k as int), i, t)),
            forall|i: int, t: int|
                0 <= i < total ==> ((#[trigger] block_views(fun.blocks@)[i].in_edges.contains(t))
                    <==> pair_in(all_pairs.take(k as int), t, i)),
        decreases pairs@.len() - k,
    {
        let ghost before = block_views(fun.blocks@);
        let (es, et) = pairs[k];
        proof {
            assert(cfg_edge(orig, es as int, et as int));
        }
        push_out(&mut fun.blocks, es, et);
        if et < total {
            push_in(&mut fun.blocks, et, es);
        }
        proof {
            assert(all_pairs.take(k + 1) =~= all_pairs.take(k as int).push((es, et)));
            assert forall|i: int, t: int| #![all_triggers] 0 <= i < total implies {
                (block_views(fun.blocks@)[i].out_edges.contains(t) <==> pair_in(
                    all_pairs.take(k + 1),
                    i,
                    t,
                )) && (block_views(fun.blocks@)[i].in_edges.contains(t) <==> pair_in(
                    all_pairs.take(k + 1),
                    t,
                    i,
                ))
            } by {
                assert forall|ii: int, tt: int|
                    pair_in(all_pairs.take(k + 1), ii, tt) implies (pair_in(
                    all_pairs.take(k as int),
                    ii,
                    tt,
                ) || (ii == es as int && tt == et as int)) by {
                    let kk = choose|kk: int|
                        0 <= kk < all_pairs.take(k + 1).len() && (#[trigger] all_pairs.take(
                            k + 1,
                        )[kk]).0 as int == ii && all_pairs.take(k + 1)[kk].1 as int == tt;
                    if kk < k {
                        assert(all_pairs.take(k as int)[kk] == all_pairs.take(k + 1)[kk]);
                        assert(pair_in(all_pairs.take(k as int), ii, tt));
                    }
                }
                assert(pair_in(all_pairs.take(k + 1), es as int, et as int)) by {
                    assert(all_pairs.take(k + 1)[k as int] == (es, et));
                }
                assert(forall|ii: int, tt: int|
                    pair_in(all_pairs.take(k as int), ii, tt) ==> pair_in(
                        all_pairs.take(k + 1),
                        ii,
                        tt,
                    ));
            }
        }
        k = k + 1;
    }
    proof {
        assert(all_pairs.take(all_pairs.len() as int) =~= all_pairs);
        assert forall|sx: int, t: int| 0 <= sx < total implies ((#[trigger] block_views(
            fun.blocks@,
        )[sx].out_edges.contains(t)) <==> cfg_edge(orig, sx, t)) by {
            if cfg_edge(orig, sx, t) {
                assert(pair_in(all_pairs, sx, t));
            }
            if pair_in(all_pairs, sx, t) {
                let kk = choose|kk: int|
                    0 <= kk < all_pairs.len() && (#[trigger] all_pairs[kk]).0 as int == sx
                        && all_pairs[kk].1 as int == t;
                assert(cfg_edge(orig, sx, t));
            }
        }
        assert forall|t: int, sx: int| 0 <= t < total implies ((#[trigger] block_views(
            fun.blocks@,
        )[t].in_edges.contains(sx)) <==> cfg_edge(orig, sx, t)) by {
            if cfg_edge(orig, sx, t) {
                assert(pair_in(all_pairs, sx, t));
            }
            if pair_in(all_pairs, sx, t) {
                let kk = choose|kk: int|
                    0 <= kk < all_pairs.len() && (#[trigger] all_pairs[kk]).0 as int == sx
                        && all_pairs[kk].1 as int == t;
                assert(cfg_edge(orig, sx, t));
            }
        }
    }
}

/// Edge symmetry: after the CFG builder runs and before any pass mutates
/// liveness, a block t is a successor of a block s exactly when s is a
/// predecessor of t, for any two blocks of the function.
pub proof fn lemma_edge_symmetry(o: Seq<BlockModel>, n: Seq<BlockModel>, s: int, t: int)
    requires
        cfg_built(o, n),
        0 <= s < n.len(),
        0 <= t < n.len(),
    ensures
        n[s].out_edges.contains(t) <==> n[t].in_edges.contains(s),
{
}

} // verus!

verus! {

/// Whether two block models agree on everything but the live flag.
pub open spec fn same_but_live(a: BlockModel, b: BlockModel) -> bool {
    &&& a.label == b.label
    &&& a.label_instr == b.label_instr
    &&& a.instrs == b.instrs
    &&& a.in_edges == b.in_edges
    &&& a.out_edges == b.out_edges
}

/// Whether block i has a predecessor that is currently live.
pub open spec fn has_live_pred(bs: Seq<BlockModel>, i: int) -> bool {
    exists|p: int| 0 <= p < bs.len() && #[trigger] bs[i].in_edges.contains(p) && bs[p].live
}

/// A supported set of block indices: each member is a live in-range block,
/// and each non-entry member has a predecessor inside the set. The members of
/// a supported set can never be marked unreachable.
pub open spec fn supported(bs: Seq<BlockModel>, s: Set<int>) -> bool {
    forall|i: int| #[trigger]
        s.contains(i) ==> 0 <= i < bs.len() && bs[i].live && (i == 0 || exists|p: int|
            #[trigger] s.contains(p) && bs[i].in_edges.contains(p))
}

/// What the unreachable-block eliminator establishes: only live flags change,
/// and they only go from live to dead; the entry block keeps its flag; every
/// surviving non-entry block still has a live predecessor (the fixpoint was
/// reached); and no member of any supported set was killed (nothing
/// reachable was removed).
pub open spec fn unreachable_removed(o: Seq<BlockModel>, n: Seq<BlockModel>) -> bool {
    &&& n.len() == o.len()
    &&& forall|i: int| 0 <= i < n.len() ==> same_but_live(#[trigger] n[i], o[i])
    &&& forall|i: int| 0 <= i < n.len() && (#[trigger] n[i]).live ==> o[i].live
    &&& 0 < n.len() ==> n[0].live == o[0].live
    &&& forall|i: int| 1 <= i < n.len() && (#[trigger] n[i]).live ==> has_live_pred(n, i)
    &&& forall|s: Set<int>| #[trigger]
        supported(o, s) ==> forall|i: int| s.contains(i) ==> 0 <= i < n.len() && (
        #[trigger] n[i]).live
}

/// The number of blocks marked live.
pub open spec fn live_count(bs: Seq<BlockModel>) -> nat
    decreases bs.len(),
{
    if bs.len() == 0 {
        0
    } else {
        live_count(bs.drop_last()) + if bs.last().live {
            1nat
        } else {
            0
        }
    }
}

proof fn lemma_live_count_same(bs1: Seq<BlockModel>, bs2: Seq<BlockModel>)
    requires
        bs1.len() == bs2.len(),
        forall|j: int| 0 <= j < bs1.len() ==> (#[trigger] bs1[j]).live == bs2[j].live,
    ensures
        live_count(bs1) == live_count(bs2),
    decreases bs1.len(),
{
    if bs1.len() > 0 {
        lemma_live_count_same(bs1.drop_last(), bs2.drop_last());
    }
}

proof fn lemma_live_count_kill(bs1: Seq<BlockModel>, bs2: Seq<BlockModel>, i: int)
    requires
        bs1.len() == bs2.len(),
        0 <= i < bs1.len(),
        bs1[i].live,
        !bs2[i].live,
        forall|j: int| 0 <= j < bs1.len() && j != i ==> (#[trigger] bs1[j]).live == bs2[j].live,
    ensures
        live_count(bs2) < live_count(bs1),
    decreases bs1.len(),
{
    if i == bs1.len() - 1 {
        lemma_live_count_same(bs1.drop_last(), bs2.drop_last());
    } else {
        lemma_live_count_kill(bs1.drop_last(), bs2.drop_last(), i);
    }
}

/// Whether block i currently has a live predecessor.
fn has_live_pred_exec(blocks: &Vec<BasicBlock>, i: usize) -> (r: bool)
    requires
        i < blocks@.len(),
    ensures
        r == has_live_pred(block_views(blocks@), i as int),
{
    let ghost bs = block_views(blocks@);
    let b = &blocks[i];
    proof {
        assert(bs[i as int] == b@);
    }
    let mut k: usize = 0;
    while k < b.in_edges.len()
        invariant
            i < blocks@.len(),
            bs == block_views(blocks@),
            b@ == bs[i as int],
            k <= b.in_edges@.len(),
            forall|kk: int|
                0 <= kk < k ==> !(b.in_edges@[kk] < blocks@.len()
                    && bs[#[trigger] b.in_edges@[kk] as int].live),
        decreases b.in_edges@.len() - k,
    {
        let p = b.in_edges[k];
        if p < blocks.len() {
            if blocks[p].live {
                proof {
                    assert(bs[i as int].in_edges.contains(p as int)) by {
                        assert(b.in_edges@[k as int] as int == p as int);
                    }
                }
                return true;
            }
        }
        k = k + 1;
    }
    proof {
        if has_live_pred(bs, i as int) {
            let p = choose|p: int|
                0 <= p < bs.len() && #[trigger] bs[i as int].in_edges.contains(p) && bs[p].live;
            let kk = choose|kk: int|
                0 <= kk < b.in_edges@.len() && b.in_edges@[kk] as int == p;
            assert(false);
        }
    }
    false
}

/// Mark one block dead, leaving everything else as it was.
fn set_dead(blocks: &mut Vec<BasicBlock>, i: usize)
    requires
        i < old(blocks)@.len(),
    ensures
        final(blocks)@.len() == old(blocks)@.len(),
        forall|j: int|
            0 <= j < final(blocks)@.len() && j != i ==> block_views(final(blocks)@)[j]
                == block_views(old(blocks)@)[j],
        block_views(final(blocks)@)[i as int] =~= (BlockModel {
            live: false,
            ..block_views(old(blocks)@)[i as int]
        }),
{
    let ghost prev = blocks@;
    let b = &mut blocks[i];
    b.live = false;
    proof {
        assert(blocks@ =~= prev.update(i as int, blocks@[i as int]));
        assert(forall|j: int|
            0 <= j < blocks@.len() && j != i ==> block_views(blocks@)[j] == block_views(prev)[j]);
    }
}

/// Mark every block other than the entry dead while it has no live
/// predecessor, repeating until a full pass changes nothing. Each pass
/// filters a block's predecessors by the liveness the earlier passes left, so
/// a chain kept alive only by already-dead blocks dies too. Only live flags
/// change; the entry block is never marked dead.
pub fn remove_unreachable_blocks(fun: &mut BBFun)
    ensures
        final(fun).function == old(fun).function,
        unreachable_removed(block_views(old(fun).blocks@), block_views(final(fun).blocks@)),
{
    let ghost o = block_views(old(fun).blocks@);
    let total = fun.blocks.len();
    let mut changed = true;
    while changed
        invariant
            fun.function == old(fun).function,
            total == fun.blocks@.len(),
            o.len() == total,
            forall|i: int|
                0 <= i < total ==> same_but_live(#[trigger] block_views(fun.blocks@)[i], o[i]),
            forall|i: int|
                0 <= i < total && (#[trigger] block_views(fun.blocks@)[i]).live ==> o[i].live,
            0 < total ==> block_views(fun.blocks@)[0].live == o[0].live,
            forall|s: Set<int>| #[trigger]
                supported(o, s) ==> forall|i: int|
                    s.contains(i) ==> 0 <= i < total && (#[trigger] block_views(
                        fun.blocks@,
                    )[i]).live,
            !changed ==> forall|i: int|
                1 <= i < total && (#[trigger] block_views(fun.blocks@)[i]).live ==> has_live_pred(
                    block_views(fun.blocks@),
                    i,
                ),
        decreases live_count(block_views(fun.blocks@)), (if changed {
            1int
        } else {
            0
        }),
    {
        let ghost sweep_start = block_views(fun.blocks@);
        changed = false;
        let mut i: usize = 1;
        while i < total
            invariant
                fun.function == old(fun).function,
                total == fun.blocks@.len(),
                o.len() == total,
                1 <= i,
                forall|j: int|
                    0 <= j < total ==> same_but_live(#[trigger] block_views(fun.blocks@)[j], o[j]),
                forall|j: int|
                    0 <= j < total && (#[trigger] block_views(fun.blocks@)[j]).live ==> o[j].live,
                0 < total ==> block_views(fun.blocks@)[0].live == o[0].live,
                forall|s: Set<int>| #[trigger]
                    supported(o, s) ==> forall|j: int|
                        s.contains(j) ==> 0 <= j < total && (#[trigger] block_views(
                            fun.blocks@,
                        )[j]).live,
                !changed ==> block_views(fun.blocks@) == sweep_start,
                live_count(block_views(fun.blocks@)) <= live_count(sweep_start),
                changed ==> live_count(block_views(fun.blocks@)) < live_count(sweep_start),
                !changed ==> forall|j: int|
                    1 <= j < i && (#[trigger] block_views(fun.blocks@)[j]).live
                        ==> has_live_pred(block_views(fun.blocks@), j),
            decreases total - i,
        {
            let is_live = fun.blocks[i].live;
            if is_live {
                let keep = has_live_pred_exec(&fun.blocks, i);
                if !keep {
                    let ghost before = block_views(fun.blocks@);
                    proof {
                        assert forall|s: Set<int>| #[trigger] supported(o, s) implies !s.contains(
                            i as int,
                        ) by {
                            if s.contains(i as int) {
                                let p = choose|p: int|
                                    #[trigger] s.contains(p) && o[i as int].in_edges.contains(p);
                                assert(before[i as int].in_edges == o[i as int].in_edges);
                                assert(before[p].live);
                                assert(has_live_pred(before, i as int));
                            }
                        }
                    }
                    set_dead(&mut fun.blocks, i);
                    changed = true;
                    proof {
                        lemma_live_count_kill(before, block_views(fun.blocks@), i as int);
                        if live_count(sweep_start) == live_count(before) {
                        }
                    }
                }
            }
            i = i + 1;
        }
    }
}

/// A dead-end chain dies: when block a (not the entry) has no predecessors,
/// block b's only predecessor is a, and block c's only predecessor is b, the
/// eliminator marks a, b, and c all dead; the entry block keeps its flag
/// whatever its in-edges.
pub proof fn lemma_dead_end_chain(
    o: Seq<BlockModel>,
    n: Seq<BlockModel>,
    a: int,
    b: int,
    c: int,
)
    requires
        unreachable_removed(o, n),
        1 <= a < n.len(),
        1 <= b < n.len(),
        1 <= c < n.len(),
        o[a].in_edges == Set::<int>::empty(),
        o[b].in_edges == Set::<int>::empty().insert(a),
        o[c].in_edges == Set::<int>::empty().insert(b),
    ensures
        !n[a].live,
        !n[b].live,
        !n[c].live,
        n[0].live == o[0].live,
{
    assert(n[a].in_edges == o[a].in_edges);
    assert(n[b].in_edges == o[b].in_edges);
    assert(n[c].in_edges == o[c].in_edges);
    if n[a].live {
        let p = choose|p: int|
            0 <= p < n.len() && #[trigger] n[a].in_edges.contains(p) && n[p].live;
        assert(false);
    }
    if n[b].live {
        let p = choose|p: int|
            0 <= p < n.len() && #[trigger] n[b].in_edges.contains(p) && n[p].live;
        assert(p == a);
        assert(false);
    }
    if n[c].live {
        let p = choose|p: int|
            0 <= p < n.len() && #[trigger] n[c].in_edges.contains(p) && n[p].live;
        assert(p == b);
        assert(false);
    }
}

} // verus!

verus! {

/// A code-item sequence with its tombstones removed.
pub open spec fn keep_instrs(s: Seq<Code>) -> Seq<Code>
    decreases s.len(),
{
    if s.len() == 0 {
        Seq::empty()
    } else {
        (if spec_is_tombstone(s.first()) {
            Seq::<Code>::empty()
        } else {
            seq![s.first()]
        }) + keep_instrs(s.drop_first())
    }
}

/// What one block contributes to the linearized stream: nothing when it is
/// dead; its leading label item, if any, and then its instructions without
/// tombstones, when it is live.
pub open spec fn flatten_block(b: BlockModel) -> Seq<Code> {
    if b.live {
        (match b.label_instr {
            Some(c) => seq![c],
            None => Seq::<Code>::empty(),
        }) + keep_instrs(b.instrs)
    } else {
        Seq::empty()
    }
}

/// The linearized code-item stream of a block sequence.
pub open spec fn flatten_blocks(bs: Seq<BlockModel>) -> Seq<Code>
    decreases bs.len(),
{
    if bs.len() == 0 {
        Seq::empty()
    } else {
        flatten_block(bs.first()) + flatten_blocks(bs.drop_first())
    }
}

proof fn lemma_flatten_blocks_push(bs: Seq<BlockModel>, b: BlockModel)
    ensures
        flatten_blocks(bs.push(b)) == flatten_blocks(bs) + flatten_block(b),
    decreases bs.len(),
{
    if bs.len() == 0 {
        assert(bs.push(b).drop_first() =~= Seq::<BlockModel>::empty());
        assert(flatten_blocks(Seq::<BlockModel>::empty()) == Seq::<Code>::empty());
        assert(bs.push(b).first() == b);
        assert(flatten_blocks(bs.push(b)) == flatten_block(b) + Seq::<Code>::empty());
        assert(flatten_blocks(bs.push(b)) =~= flatten_block(b));
        assert(flatten_blocks(bs) + flatten_block(b) =~= flatten_block(b));
    } else {
        assert(bs.push(b).drop_first() =~= bs.drop_first().push(b));
        assert(bs.push(b).first() == bs.first());
        lemma_flatten_blocks_push(bs.drop_first(), b);
        assert(flatten_blocks(bs.push(b)) =~= flatten_blocks(bs) + flatten_block(b));
    }
}

/// Whether a code item is a tombstone.
fn is_tombstone(c: &Code) -> (r: bool)
    ensures
        r == spec_is_tombstone(*c),
{
    match c {
        Code::Instruction(Instr::Effect { op, args, funcs, labels }) => {
            *op == EffectOp::Nop && args.len() == 0 && funcs.len() == 0 && labels.len() == 0
        },
        _ => false,
    }
}

/// Append one block's contribution to the output stream.
fn emit_block(out: &mut Vec<Code>, b: BasicBlock)
    ensures
        final(out)@ == old(out)@ + flatten_block(b@),
{
    let ghost target = old(out)@ + flatten_block(b@);
    let BasicBlock { label_instr, instrs, live, .. } = b;
    if !live {
        proof {
            assert(target =~= out@);
        }
        return ;
    }
    match label_instr {
        Some(c) => {
            out.push(c);
        },
        None => {},
    }
    let mut items = instrs;
    proof {
        assert(target =~= out@ + keep_instrs(items@));
    }
    while items.len() > 0
        invariant
            target == out@ + keep_instrs(items@),
        decreases items@.len(),
    {
        let ghost prev = items@;
        let c = items.remove(0);
        proof {
            assert(items@ =~= prev.drop_first());
        }
        if !is_tombstone(&c) {
            out.push(c);
        }
        proof {
            assert(target =~= out@ + keep_instrs(items@));
        }
    }
    proof {
        assert(target =~= out@);
    }
}

/// Reassemble a program from optimized block structures: each function's
/// stream holds, in block order, every live block's leading label and its
/// surviving instructions; dead blocks and tombstones are dropped.
pub fn cfg2program(funs: Vec<BBFun>) -> (r: Program)
    ensures
        r.functions@.len() == funs@.len(),
        forall|k: int| 0 <= k < funs@.len() ==> {
            &&& (#[trigger] r.functions@[k]).name == funs@[k].function.name
            &&& r.functions@[k].args == funs@[k].function.args
            &&& r.functions@[k].return_type == funs@[k].function.return_type
            &&& r.functions@[k].instrs@ == flatten_blocks(block_views(funs@[k].blocks@))
        },
{
    let ghost all = funs@;
    let mut funs = funs;
    let mut out_funs: Vec<IrFunction> = Vec::new();
    while funs.len() > 0
        invariant
            out_funs@.len() + funs@.len() == all.len(),
            funs@ == all.skip(out_funs@.len() as int),
            forall|k: int| 0 <= k < out_funs@.len() ==> {
                &&& (#[trigger] out_funs@[k]).name == all[k].function.name
                &&& out_funs@[k].args == all[k].function.args
                &&& out_funs@[k].return_type == all[k].function.return_type
                &&& out_funs@[k].instrs@ == flatten_blocks(block_views(all[k].blocks@))
            },
        decreases funs@.len(),
    {
        let f = funs.remove(0);
        proof {
            assert(f == all[out_funs@.len() as int]);
            assert(funs@ =~= all.skip(out_funs@.len() as int + 1));
        }
        let BBFun { blocks, function } = f;
        let ghost all_blocks = blocks@;
        let mut blocks = blocks;
        let mut out: Vec<Code> = Vec::new();
        proof {
            assert(flatten_blocks(block_views(all_blocks)) =~= out@ + flatten_blocks(
                block_views(blocks@),
            ));
        }
        while blocks.len() > 0
            invariant
                flatten_blocks(block_views(all_blocks)) == out@ + flatten_blocks(
                    block_views(blocks@),
                ),
            decreases blocks@.len(),
        {
            let ghost prev = block_views(blocks@);
            let b = blocks.remove(0);
            proof {
                assert(b@ == prev.first());
                assert(block_views(blocks@) =~= prev.drop_first());
            }
            let ghost out_before = out@;
            emit_block(&mut out, b);
            proof {
                assert(flatten_blocks(prev) == flatten_block(prev.first()) + flatten_blocks(
                    prev.drop_first(),
                ));
                assert(out@ + flatten_blocks(block_views(blocks@)) =~= out_before
                    + flatten_blocks(prev));
            }
        }
        proof {
            assert(flatten_blocks(block_views(all_blocks)) =~= out@);
        }
        let FnMeta { name, args, return_type } = function;
        out_funs.push(IrFunction { name, args, return_type, instrs: out });
    }
    Program { functions: out_funs }
}

} // verus!

verus! {

/// Whether a code item is a bare label marker.
pub open spec fn is_label_item(c: Code) -> bool {
    match c {
        Code::Label { .. } => true,
        _ => false,
    }
}

/// Whether no label item stands directly after another label item. When two
/// labels are adjacent the splitter replaces the first label's empty block
/// instead of duplicating it, so the first label is not preserved.
pub open spec fn no_adjacent_labels(items: Seq<Code>) -> bool {
    forall|k: int|
        0 <= k < items.len() - 1 ==> !(is_label_item(#[trigger] items[k]) && is_label_item(
            items[k + 1],
        ))
}

/// Whether no code item is a no-op tombstone.
pub open spec fn no_tombstones(items: Seq<Code>) -> bool {
    forall|k: int| 0 <= k < items.len() ==> !spec_is_tombstone(#[trigger] items[k])
}

/// The linearized stream of a scan state: its closed blocks, then the block
/// still being filled.
pub open spec fn scan_flat(st: BuildState) -> Seq<Code> {
    flatten_blocks(st.done) + flatten_block(st.cur)
}

proof fn lemma_keep_instrs_push(s: Seq<Code>, c: Code)
    ensures
        keep_instrs(s.push(c)) == keep_instrs(s) + (if spec_is_tombstone(c) {
            Seq::<Code>::empty()
        } else {
            seq![c]
        }),
    decreases s.len(),
{
    if s.len() == 0 {
        assert(s.push(c).drop_first() =~= Seq::<Code>::empty());
        assert(keep_instrs(Seq::<Code>::empty()) == Seq::<Code>::empty());
        assert(s.push(c).first() == c);
        assert(keep_instrs(s.push(c)) =~= keep_instrs(s) + (if spec_is_tombstone(c) {
            Seq::<Code>::empty()
        } else {
            seq![c]
        }));
    } else {
        assert(s.push(c).drop_first() =~= s.drop_first().push(c));
        assert(s.push(c).first() == s.first());
        lemma_keep_instrs_push(s.drop_first(), c);
        assert(keep_instrs(s.push(c)) =~= keep_instrs(s) + (if spec_is_tombstone(c) {
            Seq::<Code>::empty()
        } else {
            seq![c]
        }));
    }
}

proof fn lemma_round_trip_scan(items: Seq<Code>, st: BuildState)
    requires
        no_tombstones(items),
        no_adjacent_labels(items),
        st.cur.live,
        (st.cur.instrs.len() == 0 && st.cur.label_instr is Some) ==> (items.len() == 0
            || !is_label_item(items.first())),
    ensures
        scan_flat(build_scan(items, st)) == scan_flat(st) + items,
    decreases items.len(),
{
    if items.len() == 0 {
        assert(scan_flat(st) + items =~= scan_flat(st));
    } else {
        let item = items.first();
        let rest = items.drop_first();
        let st2 = build_step(st, item);
        assert(!spec_is_tombstone(item));
        assert(forall|k: int| 0 <= k < rest.len() ==> rest[k] == items[k + 1]);
        match item {
            Code::Instruction(_) => {
                if spec_is_terminator(item) {
                    lemma_flatten_blocks_push(st.done, push_instr(st.cur, item));
                    lemma_keep_instrs_push(st.cur.instrs, item);
                    assert(flatten_block(push_instr(st.cur, item)) =~= flatten_block(st.cur)
                        + seq![item]);
                    assert(flatten_block(st2.cur) =~= Seq::<Code>::empty());
                    assert(scan_flat(st2) =~= scan_flat(st) + seq![item]);
                } else {
                    lemma_keep_instrs_push(st.cur.instrs, item);
                    assert(flatten_block(st2.cur) =~= flatten_block(st.cur) + seq![item]);
                    assert(scan_flat(st2) =~= scan_flat(st) + seq![item]);
                }
            },
            Code::Label { label } => {
                if st.cur.instrs.len() == 0 {
                    assert(st.cur.label_instr is None);
                    assert(keep_instrs(st.cur.instrs) =~= Seq::<Code>::empty());
                    assert(flatten_block(st.cur) =~= Seq::<Code>::empty());
                    assert(keep_instrs(st2.cur.instrs) =~= Seq::<Code>::empty());
                    assert(flatten_block(st2.cur) =~= seq![item]);
                    assert(scan_flat(st2) =~= scan_flat(st) + seq![item]);
                } else {
                    lemma_flatten_blocks_push(st.done, st.cur);
                    assert(keep_instrs(st2.cur.instrs) =~= Seq::<Code>::empty());
                    assert(flatten_block(st2.cur) =~= seq![item]);
                    assert(scan_flat(st2) =~= scan_flat(st) + seq![item]);
                }
            },
        }
        lemma_round_trip_scan(rest, st2);
        assert(scan_flat(build_scan(items, st)) =~= scan_flat(st) + items);
    }
}

/// Linearization round trip: an input stream holding no tombstones and no
/// label item directly after another splits into blocks that are all live and
/// tombstone-free, and flattening them gives back exactly the input: same
/// labels, same instructions, same order.
pub proof fn lemma_linearize_round_trip(items: Seq<Code>)
    requires
        no_tombstones(items),
        no_adjacent_labels(items),
    ensures
        flatten_blocks(build_blocks(items)) == items,
{
    lemma_round_trip_scan(items, build_init());
    let st = build_scan(items, build_init());
    lemma_flatten_blocks_push(st.done, st.cur);
    assert(flatten_blocks(Seq::<BlockModel>::empty()) == Seq::<Code>::empty());
    assert(keep_instrs(Seq::<Code>::empty()) == Seq::<Code>::empty());
    assert(scan_flat(build_init()) =~= Seq::<Code>::empty());
    assert(flatten_blocks(build_blocks(items)) =~= items);
}

/// The names of the label items of an input stream, in order.
pub open spec fn item_label_names(items: Seq<Code>) -> Seq<Seq<char>>
    decreases items.len(),
{
    if items.len() == 0 {
        Seq::empty()
    } else {
        (match items.first() {
            Code::Label { label } => seq![label@],
            _ => Seq::<Seq<char>>::empty(),
        }) + item_label_names(items.drop_first())
    }
}

/// How many blocks of a sequence carry the given user label.
pub open spec fn named_count(bs: Seq<BlockModel>, l: Seq<char>) -> nat
    decreases bs.len(),
{
    if bs.len() == 0 {
        0
    } else {
        (if is_named(bs.first().label, l) {
            1nat
        } else {
            0
        }) + named_count(bs.drop_first(), l)
    }
}

/// How many entries of a name sequence equal the given name.
pub open spec fn name_count(names: Seq<Seq<char>>, l: Seq<char>) -> nat
    decreases names.len(),
{
    if names.len() == 0 {
        0
    } else {
        (if names.first() == l {
            1nat
        } else {
            0
        }) + name_count(names.drop_first(), l)
    }
}

proof fn lemma_named_count_push(bs: Seq<BlockModel>, b: BlockModel, l: Seq<char>)
    ensures
        named_count(bs.push(b), l) == named_count(bs, l) + (if is_named(b.label, l) {
            1nat
        } else {
            0
        }),
    decreases bs.len(),
{
    if bs.len() == 0 {
        assert(bs.push(b).drop_first() =~= Seq::<BlockModel>::empty());
        assert(bs.push(b).first() == b);
        assert(named_count(Seq::<BlockModel>::empty(), l) == 0);
        assert(named_count(bs, l) == 0);
    } else {
        assert(bs.push(b).drop_first() =~= bs.drop_first().push(b));
        assert(bs.push(b).first() == bs.first());
        lemma_named_count_push(bs.drop_first(), b, l);
        assert(named_count(bs.push(b), l) == (if is_named(bs.first().label, l) {
            1nat
        } else {
            0
        }) + named_count(bs.drop_first().push(b), l));
        assert(named_count(bs, l) == (if is_named(bs.first().label, l) {
            1nat
        } else {
            0
        }) + named_count(bs.drop_first(), l));
    }
}

proof fn lemma_labels_scan(items: Seq<Code>, st: BuildState, l: Seq<char>)
    requires
        no_adjacent_labels(items),
        (st.cur.instrs.len() == 0 && st.cur.label matches BlockLabel::Named(_)) ==> (items.len()
            == 0 || !is_label_item(items.first())),
    ensures
        named_count(build_scan(items, st).done.push(build_scan(items, st).cur), l) == named_count(
            st.done.push(st.cur),
            l,
        ) + name_count(item_label_names(items), l),
    decreases items.len(),
{
    if items.len() == 0 {
        assert(name_count(item_label_names(items), l) == 0);
    } else {
        let item = items.first();
        let rest = items.drop_first();
        let st2 = build_step(st, item);
        assert(forall|k: int| 0 <= k < rest.len() ==> rest[k] == items[k + 1]);
        let contribution: nat = match item {
            Code::Label { label } => if label@ == l {
                1nat
            } else {
                0
            },
            _ => 0,
        };
        assert(name_count(item_label_names(items), l) == contribution + name_count(
            item_label_names(rest),
            l,
        )) by {
            assert(item_label_names(items) == (match item {
                Code::Label { label } => seq![label@],
                _ => Seq::<Seq<char>>::empty(),
            }) + item_label_names(rest));
            match item {
                Code::Label { label } => {
                    let names = item_label_names(items);
                    assert(names.first() == label@);
                    assert(names.drop_first() =~= item_label_names(rest));
                },
                _ => {
                    assert(item_label_names(items) =~= item_label_names(rest));
                },
            }
        }
        assert(named_count(st2.done.push(st2.cur), l) == named_count(st.done.push(st.cur), l)
            + contribution) by {
            lemma_named_count_push(st.done, st.cur, l);
            lemma_named_count_push(st2.done, st2.cur, l);
            match item {
                Code::Instruction(_) => {
                    if spec_is_terminator(item) {
                        lemma_named_count_push(st.done, push_instr(st.cur, item), l);
                    }
                },
                Code::Label { label } => {
                    if st.cur.instrs.len() == 0 {
                        assert(!is_named(st.cur.label, l));
                    } else {
                        lemma_named_count_push(st.done, st.cur, l);
                    }
                },
            }
        }
        lemma_labels_scan(rest, st2, l);
    }
}

/// Block-splitting keeps every label: when no label item stands directly
/// after another, the split blocks carry exactly the input's label names,
/// with their multiplicities. A jump or branch target that appears once among
/// the input's label items therefore names exactly one block.
pub proof fn lemma_split_keeps_labels(items: Seq<Code>, l: Seq<char>)
    requires
        no_adjacent_labels(items),
    ensures
        named_count(build_blocks(items), l) == name_count(item_label_names(items), l),
{
    lemma_labels_scan(items, build_init(), l);
    lemma_named_count_push(Seq::<BlockModel>::empty(), empty_block_model(BlockLabel::Entry), l);
}

/// How a label count reads back: a label resolves exactly when some block
/// carries it, and a count of one means exactly one block carries it.
pub proof fn lemma_named_count_resolves(bs: Seq<BlockModel>, l: Seq<char>)
    ensures
        (named_count(bs, l) > 0) == label_resolves(bs, l),
        named_count(bs, l) == 1 ==> forall|j1: int, j2: int|
            (0 <= j1 < bs.len() && 0 <= j2 < bs.len() && is_named(#[trigger] bs[j1].label, l)
                && is_named(#[trigger] bs[j2].label, l)) ==> j1 == j2,
    decreases bs.len(),
{
    if bs.len() == 0 {
    } else {
        let rest = bs.drop_first();
        lemma_named_count_resolves(rest, l);
        assert(forall|k: int| 0 <= k < rest.len() ==> rest[k] == bs[k + 1]);
        if label_resolves(bs, l) {
            let j = choose|j: int| 0 <= j < bs.len() && is_named(bs[j].label, l);
            if j > 0 {
                assert(is_named(rest[j - 1].label, l));
                assert(label_resolves(rest, l));
            }
            assert(named_count(bs, l) > 0);
        }
        if named_count(bs, l) > 0 {
            if is_named(bs.first().label, l) {
                assert(label_resolves(bs, l));
            } else {
                assert(label_resolves(rest, l));
                let j = choose|j: int| 0 <= j < rest.len() && is_named(rest[j].label, l);
                assert(is_named(bs[j + 1].label, l));
                assert(label_resolves(bs, l));
            }
        }
        if named_count(bs, l) == 1 {
            assert forall|j1: int, j2: int|
                (0 <= j1 < bs.len() && 0 <= j2 < bs.len() && is_named(
                    #[trigger] bs[j1].label,
                    l,
                ) && is_named(#[trigger] bs[j2].label, l)) implies j1 == j2 by {
                if is_named(bs.first().label, l) {
                    assert(named_count(rest, l) == 0);
                    if j1 > 0 {
                        assert(is_named(rest[j1 - 1].label, l));
                        assert(label_resolves(rest, l));
                        assert(false);
                    }
                    if j2 > 0 {
                        assert(is_named(rest[j2 - 1].label, l));
                        assert(label_resolves(rest, l));
                        assert(false);
                    }
                } else {
                    assert(named_count(rest, l) == 1);
                    if j1 == 0 || j2 == 0 {
                        assert(false);
                    }
                    assert(is_named(rest[j1 - 1].label, l));
                    assert(is_named(rest[j2 - 1].label, l));
                }
            }
        }
    }
}

} // verus!

verus! {

/// A block as the splitter leaves it: live, with empty edge sets, and with no
/// label item among its instructions — labels live only in the leading-label
/// field.
pub open spec fn fresh_block(b: BlockModel) -> bool {
    &&& b.live
    &&& b.in_edges == Set::<int>::empty()
    &&& b.out_edges == Set::<int>::empty()
    &&& forall|j: int| 0 <= j < b.instrs.len() ==> !is_label_item(#[trigger] b.instrs[j])
}

proof fn lemma_build_scan_fresh(items: Seq<Code>, st: BuildState)
    requires
        forall|i: int| 0 <= i < st.done.len() ==> fresh_block(#[trigger] st.done[i]),
        fresh_block(st.cur),
    ensures
        forall|i: int|
            0 <= i < build_scan(items, st).done.len() ==> fresh_block(
                #[trigger] build_scan(items, st).done[i],
            ),
        fresh_block(build_scan(items, st).cur),
    decreases items.len(),
{
    if items.len() > 0 {
        let st2 = build_step(st, items.first());
        assert(forall|i: int| 0 <= i < st2.done.len() ==> fresh_block(#[trigger] st2.done[i])
            && fresh_block(st2.cur)) by {
            match items.first() {
                Code::Instruction(_) => {
                    if spec_is_terminator(items.first()) {
                        assert(fresh_block(push_instr(st.cur, items.first())));
                    } else {
                        assert(fresh_block(st2.cur));
                    }
                },
                Code::Label { .. } => {},
            }
        }
        lemma_build_scan_fresh(items.drop_first(), st2);
    }
}

/// The splitter's lifecycle guarantees: every block it builds is live, has
/// empty predecessor and successor sets (the CFG builder populates them
/// later), and holds instructions only — each label item stands solely in its
/// block's leading-label field.
pub proof fn lemma_built_blocks_fresh(items: Seq<Code>)
    ensures
        forall|i: int|
            0 <= i < build_blocks(items).len() ==> fresh_block(#[trigger] build_blocks(items)[i]),
{
    lemma_build_scan_fresh(items, build_init());
    let st = build_scan(items, build_init());
    assert(forall|i: int|
        0 <= i < build_blocks(items).len() ==> build_blocks(items)[i] == if i < st.done.len() {
            st.done[i]
        } else {
            st.cur
        });
}

} // verus!

verus! {

/// Splitting a well-formed input satisfies the CFG builder: when no label
/// item stands directly after another and every branch or jump target of the
/// split blocks occurs among the input's label items, every target resolves
/// to a block.
pub proof fn lemma_split_ready_for_cfg(items: Seq<Code>)
    requires
        no_adjacent_labels(items),
        forall|s: int, k: int|
            0 <= s < build_blocks(items).len() && 0 <= k < transfer_labels(
                build_blocks(items)[s],
            ).len() ==> name_count(
                item_label_names(items),
                #[trigger] transfer_labels(#[trigger] build_blocks(items)[s])[k],
            ) > 0,
    ensures
        cfg_labels_resolve(build_blocks(items)),
{
    let bs = build_blocks(items);
    assert forall|s: int, k: int|
        0 <= s < bs.len() && 0 <= k < transfer_labels(bs[s]).len() implies label_resolves(
        bs,
        #[trigger] transfer_labels(#[trigger] bs[s])[k],
    ) by {
        let l = transfer_labels(bs[s])[k];
        lemma_split_keeps_labels(items, l);
        lemma_named_count_resolves(bs, l);
    }
}

} // verus!
