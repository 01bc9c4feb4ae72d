use vstd::prelude::*;
use crate::print_items::{ConditionResolver, PNode, PrintItems, PrintNode, Signal, node_wf,
    prog_wf};
use crate::write_items::{WItem, WriteItem, witems_view};

verus! {

/// Configuration for resolving a tree into write items.
#[derive(Clone, Copy, Debug, PartialEq, Eq)]
pub struct GetWriteItemsOptions {
    /// The rendering width budget, in columns; must be at least one.
    pub max_width: u32,
    /// Columns per indent level, and the tab size used to expand embedded
    /// tab characters; must be at least one.
    pub indent_width: u32,
}

pub open spec fn opts_valid(o: GetWriteItemsOptions) -> bool {
    o.max_width >= 1 && o.indent_width >= 1
}

/// The failure taxonomy of a print operation. A print either fully
/// succeeds or fails as a unit with one of these; no partial output is
/// ever returned.
#[derive(Clone, Copy, Debug, PartialEq, Eq, Structural)]
pub enum PrintError {
    /// A configuration value is out of range (a zero width).
    InvalidConfig,
    /// A resolver references an info identifier that no node of the tree
    /// declares; the identifier is carried for diagnosability.
    DanglingInfo(u32),
    /// A condition could not be decided within the bounded number of
    /// resolution attempts: a genuinely cyclic dependency, or a pathological
    /// configuration. Carries the offending condition's identifier.
    ResolutionExhausted(u32),
}

/// The resolved position of an info marker: the line, the rendered column,
/// and the indentation level in force when the printer passed it.
#[derive(Clone, Copy, Debug, PartialEq, Eq, Structural)]
pub struct InfoPos {
    pub line: u64,
    pub col: u64,
    pub indent: u32,
}

/// What the printer knows about one condition node of the program.
#[derive(Clone, Copy, Debug, PartialEq, Eq, Structural)]
pub enum CondState {
    NotVisited,
    /// Visited, but its resolver could not decide yet; the false path was
    /// taken provisionally and another resolution attempt is owed.
    Undecided,
    /// Visited and committed to the given branch.
    Decided(bool),
}

// ---------------------------------------------------------------------------
// Saturating arithmetic helpers.
// ---------------------------------------------------------------------------

pub open spec fn sat_add64(a: u64, b: u64) -> u64 {
    if a + b > u64::MAX {
        u64::MAX
    } else {
        (a + b) as u64
    }
}

pub open spec fn sat_add32(a: u32, b: u32) -> u32 {
    if a + b > u32::MAX {
        u32::MAX
    } else {
        (a + b) as u32
    }
}

fn add_sat64(a: u64, b: u64) -> (r: u64)
    ensures
        r == sat_add64(a, b),
{
    if a <= u64::MAX - b {
        a + b
    } else {
        u64::MAX
    }
}

fn add_sat32(a: u32, b: u32) -> (r: u32)
    ensures
        r == sat_add32(a, b),
{
    if a <= u32::MAX - b {
        a + b
    } else {
        u32::MAX
    }
}

// ---------------------------------------------------------------------------
// Rendered width of text.
// ---------------------------------------------------------------------------

/// The column reached after printing character `c` from column `col`: a tab
/// advances to the next multiple of the tab size, anything else is one
/// column wide.
pub open spec fn char_adv(col: u64, c: char, tab: u32) -> u64
    recommends
        tab >= 1,
{
    if c == '\t' {
        sat_add64(col, (tab as u64 - col as int % tab as int) as u64)
    } else {
        sat_add64(col, 1)
    }
}

/// The column reached after printing the characters `cs` from column `col`.
pub open spec fn text_end(col: u64, cs: Seq<char>, tab: u32) -> u64
    decreases cs.len(),
{
    if cs.len() == 0 {
        col
    } else {
        text_end(char_adv(col, cs[0], tab), cs.drop_first(), tab)
    }
}

proof fn lemma_text_end_snoc(col: u64, cs: Seq<char>, c: char, tab: u32)
    requires
        tab >= 1,
    ensures
        text_end(col, cs.push(c), tab) == char_adv(text_end(col, cs, tab), c, tab),
    decreases cs.len(),
{
    if cs.len() == 0 {
        assert(cs.push(c)[0] == c);
        assert(cs.push(c).drop_first() =~= Seq::<char>::empty());
        assert(text_end(col, cs.push(c), tab) == text_end(
            char_adv(col, c, tab),
            Seq::<char>::empty(),
            tab,
        ));
        assert(text_end(char_adv(col, c, tab), Seq::<char>::empty(), tab) == char_adv(
            col,
            c,
            tab,
        ));
        assert(text_end(col, cs, tab) == col);
    } else {
        assert(cs.push(c)[0] == cs[0]);
        assert(cs.push(c).drop_first() =~= cs.drop_first().push(c));
        lemma_text_end_snoc(char_adv(col, cs[0], tab), cs.drop_first(), c, tab);
    }
}

/// Relies on str::chars: it yields exactly the string's characters, in
/// order, which is also how vstd models a string's view.
#[verifier::external_body]
pub(crate) fn chars_vec(s: &str) -> (r: Vec<char>)
    ensures
        r@ == s@,
{
    s.chars().collect()
}

fn measure_text(col: u64, s: &String, tab: u32) -> (r: u64)
    requires
        tab >= 1,
    ensures
        r == text_end(col, s@, tab),
{
    let cs = chars_vec(s.as_str());
    let mut col2: u64 = col;
    let mut i: usize = 0;
    while i < cs.len()
        invariant
            tab >= 1,
            i <= cs.len(),
            cs@ == s@,
            col2 == text_end(col, cs@.take(i as int), tab),
        decreases cs.len() - i,
    {
        let c = cs[i];
        let next: u64 = if c == '\t' {
            let t64: u64 = tab as u64;
            let m: u64 = col2 % t64;
            add_sat64(col2, t64 - m)
        } else {
            add_sat64(col2, 1)
        };
        proof {
            lemma_text_end_snoc(col, cs@.take(i as int), cs@[i as int], tab);
            assert(cs@.take(i as int + 1) =~= cs@.take(i as int).push(cs@[i as int]));
        }
        col2 = next;
        i += 1;
    }
    proof {
        assert(cs@.take(cs@.len() as int) =~= cs@);
    }
    col2
}

// ---------------------------------------------------------------------------
// Printer state: the mathematical model.
// ---------------------------------------------------------------------------

/// A snapshot the printer can rewind to when a break opportunity has to
/// fire after all: everything but the committed-output tail, the fired-break
/// bookkeeping, and the snapshot slot itself.
#[verifier::ext_equal]
pub struct SSave {
    pub pc: usize,
    pub out_len: int,
    pub line: u64,
    pub col: u64,
    pub indent: u32,
    pub ignore: u32,
    pub pending: bool,
    pub infos: Seq<Option<InfoPos>>,
    pub conds: Seq<CondState>,
    pub undecided: bool,
    pub visited: Seq<InfoPos>,
}

/// The full state of one committed printing pass.
#[verifier::ext_equal]
pub struct SPass {
    /// Position in the program; deltas only move it forward, restores move
    /// it back while consuming a break opportunity.
    pub pc: usize,
    pub out: Seq<WItem>,
    pub line: u64,
    pub col: u64,
    /// Current indentation level (in levels, not columns).
    pub indent: u32,
    /// Depth of ignoring-indent scopes; positive means line starts are bare.
    pub ignore: u32,
    /// True at a line start whose indentation has not been emitted yet.
    pub pending: bool,
    pub infos: Seq<Option<InfoPos>>,
    pub conds: Seq<CondState>,
    /// Which break opportunities have been forced to fire on this pass.
    pub fired: Seq<bool>,
    /// Count of break opportunities not fired yet; the termination budget.
    pub fires_left: usize,
    pub save: Option<SSave>,
    /// True once some resolver answered "cannot decide yet" on this pass.
    pub undecided: bool,
    /// The info positions committed so far, in commit order.
    pub visited: Seq<InfoPos>,
}

pub open spec fn count_false(v: Seq<bool>) -> nat
    decreases v.len(),
{
    if v.len() == 0 {
        0
    } else {
        count_false(v.drop_last()) + if v.last() {
            0nat
        } else {
            1nat
        }
    }
}

proof fn lemma_count_false_update(v: Seq<bool>, i: int)
    requires
        0 <= i < v.len(),
        !v[i],
    ensures
        count_false(v.update(i, true)) + 1 == count_false(v),
    decreases v.len(),
{
    if i == v.len() - 1 {
        assert(v.update(i, true).drop_last() =~= v.drop_last());
        assert(v.update(i, true).last() == true);
    } else {
        assert(v.update(i, true).drop_last() =~= v.drop_last().update(i, true));
        assert(v.update(i, true).last() == v.last());
        lemma_count_false_update(v.drop_last(), i);
    }
}

proof fn lemma_count_false_all(v: Seq<bool>)
    requires
        forall|i: int| 0 <= i < v.len() ==> !v[i],
    ensures
        count_false(v) == v.len(),
    decreases v.len(),
{
    if v.len() > 0 {
        lemma_count_false_all(v.drop_last());
    }
}

/// The invariant every pass state keeps: bookkeeping sequences track the
/// program, the budget counts the unfired break opportunities, and a live
/// snapshot points at an unfired opportunity inside the committed output.
pub open spec fn pass_inv(prog: Seq<PNode>, s: SPass) -> bool {
    &&& prog.len() <= usize::MAX
    &&& s.pc <= prog.len()
    &&& s.fired.len() == prog.len()
    &&& s.conds.len() == prog.len()
    &&& s.fires_left == count_false(s.fired)
    &&& match s.save {
        Some(sp) => {
            &&& sp.pc < prog.len()
            &&& !s.fired[sp.pc as int]
            &&& 0 <= sp.out_len <= s.out.len()
            &&& sp.infos.len() == s.infos.len()
            &&& sp.conds.len() == s.conds.len()
        },
        None => true,
    }
}

// ---------------------------------------------------------------------------
// One step of the printer.
// ---------------------------------------------------------------------------

pub open spec fn indent_cols(ind: u32, tab: u32) -> u64 {
    ((ind as int) * (tab as int)) as u64
}

/// Emits the pending indentation, if any, before the first content of a
/// line; columns start at the indentation width, or at zero inside an
/// ignoring-indent scope.
pub open spec fn content_start(s: SPass, tab: u32) -> SPass {
    if s.pending {
        if s.ignore == 0 && s.indent > 0 {
            SPass {
                pending: false,
                col: indent_cols(s.indent, tab),
                out: s.out.push(WItem::Indent(s.indent)),
                ..s
            }
        } else {
            SPass { pending: false, col: 0, ..s }
        }
    } else {
        s
    }
}

/// A committed line break: the column returns to the line start and any
/// break-opportunity snapshot of the finished line is dropped.
pub open spec fn do_newline(s: SPass) -> SPass
    recommends
        s.pc < usize::MAX,
{
    SPass {
        out: s.out.push(WItem::NewLine),
        line: sat_add64(s.line, 1),
        col: 0,
        pending: true,
        save: None,
        pc: (s.pc + 1) as usize,
        ..s
    }
}

pub open spec fn snap_of(s: SPass) -> SSave
    recommends
        s.out.len() <= usize::MAX,
{
    SSave {
        pc: s.pc,
        out_len: s.out.len() as int,
        line: s.line,
        col: s.col,
        indent: s.indent,
        ignore: s.ignore,
        pending: s.pending,
        infos: s.infos,
        conds: s.conds,
        undecided: s.undecided,
        visited: s.visited,
    }
}

/// Rewinds to the live snapshot, discarding the output committed after it,
/// and marks that break opportunity as fired so that re-printing takes the
/// break.
pub open spec fn do_restore(s: SPass) -> SPass
    recommends
        s.save is Some,
        s.fires_left >= 1,
{
    let sp = s.save->Some_0;
    SPass {
        pc: sp.pc,
        out: s.out.take(sp.out_len),
        line: sp.line,
        col: sp.col,
        indent: sp.indent,
        ignore: sp.ignore,
        pending: sp.pending,
        infos: sp.infos,
        conds: sp.conds,
        fired: s.fired.update(sp.pc as int, true),
        fires_left: (s.fires_left - 1) as usize,
        save: None,
        undecided: sp.undecided,
        visited: sp.visited,
    }
}

/// The position an info committed right now records: the line, the column
/// committed to that line so far (zero while the line is still pending),
/// and the indentation level in force.
pub open spec fn eff_pos(s: SPass, tab: u32) -> InfoPos {
    InfoPos {
        line: s.line,
        col: if s.pending {
            0
        } else {
            s.col
        },
        indent: s.indent,
    }
}

/// The position of an info as a resolver sees it mid-pass: what this pass
/// has committed, or failing that the hint carried over from the previous
/// resolution attempt.
pub open spec fn look(s: SPass, hints: Seq<Option<InfoPos>>, id: u32) -> Option<InfoPos> {
    if id < s.infos.len() {
        match s.infos[id as int] {
            Some(p) => Some(p),
            None => {
                if id < hints.len() {
                    hints[id as int]
                } else {
                    None
                }
            },
        }
    } else {
        None
    }
}

/// A resolver's answer against the given state: `None` is "cannot decide
/// yet" and defers the condition to a later resolution attempt.
pub open spec fn eval_resolver(r: ConditionResolver, s: SPass, hints: Seq<Option<InfoPos>>) -> Option<bool> {
    match r {
        ConditionResolver::IsMultipleLines(a, b) => match (look(s, hints, a), look(s, hints, b)) {
            (Some(pa), Some(pb)) => Some(pa.line != pb.line),
            _ => None,
        },
        ConditionResolver::IsStartOfLine => Some(s.pending),
    }
}

pub open spec fn step_signal(o: GetWriteItemsOptions, s: SPass, g: Signal) -> SPass
    recommends
        opts_valid(o),
        s.pc < s.fired.len(),
        s.out.len() <= usize::MAX,
        s.fired.len() <= usize::MAX,
{
    let tab = o.indent_width;
    match g {
        Signal::NewLine => do_newline(s),
        Signal::ExpectNewLine => if s.pending {
            SPass { pc: (s.pc + 1) as usize, ..s }
        } else {
            do_newline(s)
        },
        Signal::Tab => {
            let s1 = content_start(s, tab);
            let end = char_adv(s1.col, '\t', tab);
            SPass { out: s1.out.push(WItem::Tab), col: end, pc: (s.pc + 1) as usize, ..s1 }
        },
        Signal::StartIndent => SPass { indent: sat_add32(s.indent, 1), pc: (s.pc + 1) as usize, ..s },
        Signal::FinishIndent => SPass {
            indent: if s.indent > 0 {
                (s.indent - 1) as u32
            } else {
                0
            },
            pc: (s.pc + 1) as usize,
            ..s
        },
        Signal::StartIgnoringIndent => SPass {
            ignore: sat_add32(s.ignore, 1),
            pc: (s.pc + 1) as usize,
            ..s
        },
        Signal::FinishIgnoringIndent => SPass {
            ignore: if s.ignore > 0 {
                (s.ignore - 1) as u32
            } else {
                0
            },
            pc: (s.pc + 1) as usize,
            ..s
        },
        Signal::SpaceOrNewLine => {
            if s.fired[s.pc as int] {
                do_newline(s)
            } else {
                let s2 = SPass { save: Some(snap_of(s)), ..s };
                let s1 = content_start(s2, tab);
                let end = sat_add64(s1.col, 1);
                if end > o.max_width as u64 {
                    do_restore(s2)
                } else {
                    SPass {
                        out: s1.out.push(WItem::Text(seq![' '])),
                        col: end,
                        pc: (s.pc + 1) as usize,
                        ..s1
                    }
                }
            }
        },
        Signal::PossibleNewLine => {
            if s.fired[s.pc as int] {
                do_newline(s)
            } else {
                SPass { save: Some(snap_of(s)), pc: (s.pc + 1) as usize, ..s }
            }
        },
    }
}

/// One step of the committed pass at `prog[s.pc]`.
pub open spec fn step(
    prog: Seq<PNode>,
    o: GetWriteItemsOptions,
    hints: Seq<Option<InfoPos>>,
    s: SPass,
) -> SPass
    recommends
        opts_valid(o),
        pass_inv(prog, s),
        s.pc < prog.len(),
{
    let tab = o.indent_width;
    match prog[s.pc as int] {
        PNode::Text(txt) => {
            let s1 = content_start(s, tab);
            let end = text_end(s1.col, txt, tab);
            if end > o.max_width as u64 && s.save is Some {
                do_restore(s)
            } else {
                SPass { out: s1.out.push(WItem::Text(txt)), col: end, pc: (s.pc + 1) as usize, ..s1 }
            }
        },
        PNode::Signal(g) => step_signal(o, s, g),
        PNode::Info(id) => {
            let eff = eff_pos(s, tab);
            if id < s.infos.len() {
                SPass {
                    infos: s.infos.update(id as int, Some(eff)),
                    visited: s.visited.push(eff),
                    pc: (s.pc + 1) as usize,
                    ..s
                }
            } else {
                SPass { pc: (s.pc + 1) as usize, ..s }
            }
        },
        PNode::Condition(_id, r, d) => match eval_resolver(r, s, hints) {
            Some(true) => SPass {
                conds: s.conds.update(s.pc as int, CondState::Decided(true)),
                pc: (s.pc + 1) as usize,
                ..s
            },
            Some(false) => SPass {
                conds: s.conds.update(s.pc as int, CondState::Decided(false)),
                pc: (s.pc + d) as usize,
                ..s
            },
            None => SPass {
                conds: s.conds.update(s.pc as int, CondState::Undecided),
                undecided: true,
                pc: (s.pc + d) as usize,
                ..s
            },
        },
        PNode::Jump(d) => SPass { pc: (s.pc + d) as usize, ..s },
    }
}

/// Each step keeps the pass invariant and strictly shrinks the measure:
/// either a break opportunity was consumed, or the program counter moved
/// forward.
pub proof fn lemma_step_ok(
    prog: Seq<PNode>,
    o: GetWriteItemsOptions,
    hints: Seq<Option<InfoPos>>,
    s: SPass,
)
    requires
        prog_wf(prog),
        opts_valid(o),
        pass_inv(prog, s),
        s.pc < prog.len(),
    ensures
        pass_inv(prog, step(prog, o, hints, s)),
        step(prog, o, hints, s).fires_left < s.fires_left || (step(prog, o, hints, s).fires_left
            == s.fires_left && s.pc < step(prog, o, hints, s).pc),
{
    assert(node_wf(prog, s.pc as int));
    let s2 = step(prog, o, hints, s);
    match prog[s.pc as int] {
        PNode::Text(_txt) => {
            if s2 == do_restore(s) && s.save is Some {
                let sp = s.save->Some_0;
                lemma_count_false_update(s.fired, sp.pc as int);
            }
        },
        PNode::Signal(g) => {
            match g {
                Signal::SpaceOrNewLine => {
                    if !s.fired[s.pc as int] {
                        let snap = snap_of(s);
                        let sx = SPass { save: Some(snap), ..s };
                        if s2 == do_restore(sx) {
                            lemma_count_false_update(s.fired, s.pc as int);
                        }
                    }
                },
                _ => {},
            }
        },
        _ => {},
    }
}

/// The committed pass: steps until the program counter leaves the program.
pub open spec fn run(
    prog: Seq<PNode>,
    o: GetWriteItemsOptions,
    hints: Seq<Option<InfoPos>>,
    s: SPass,
) -> SPass
    decreases s.fires_left, prog.len() - s.pc,
        when prog_wf(prog) && opts_valid(o) && pass_inv(prog, s)
        via run_decreases
{
    if s.pc >= prog.len() {
        s
    } else {
        run(prog, o, hints, step(prog, o, hints, s))
    }
}

#[via_fn]
proof fn run_decreases(
    prog: Seq<PNode>,
    o: GetWriteItemsOptions,
    hints: Seq<Option<InfoPos>>,
    s: SPass,
) {
    if s.pc < prog.len() {
        lemma_step_ok(prog, o, hints, s);
    }
}


// ---------------------------------------------------------------------------
// Executable pass state, mirroring the model field for field.
// ---------------------------------------------------------------------------

pub(crate) struct SaveSt {
    pub pc: usize,
    pub out_len: usize,
    pub line: u64,
    pub col: u64,
    pub indent: u32,
    pub ignore: u32,
    pub pending: bool,
    pub infos: Vec<Option<InfoPos>>,
    pub conds: Vec<CondState>,
    pub undecided: bool,
    pub visited: Ghost<Seq<InfoPos>>,
}

impl View for SaveSt {
    type V = SSave;

    closed spec fn view(&self) -> SSave {
        SSave {
            pc: self.pc,
            out_len: self.out_len as int,
            line: self.line,
            col: self.col,
            indent: self.indent,
            ignore: self.ignore,
            pending: self.pending,
            infos: self.infos@,
            conds: self.conds@,
            undecided: self.undecided,
            visited: self.visited@,
        }
    }
}

pub(crate) struct PassSt {
    pub pc: usize,
    pub out: Vec<WriteItem>,
    pub line: u64,
    pub col: u64,
    pub indent: u32,
    pub ignore: u32,
    pub pending: bool,
    pub infos: Vec<Option<InfoPos>>,
    pub conds: Vec<CondState>,
    pub fired: Vec<bool>,
    pub fires_left: usize,
    pub save: Option<SaveSt>,
    pub undecided: bool,
    pub visited: Ghost<Seq<InfoPos>>,
}

impl View for PassSt {
    type V = SPass;

    closed spec fn view(&self) -> SPass {
        SPass {
            pc: self.pc,
            out: witems_view(self.out@),
            line: self.line,
            col: self.col,
            indent: self.indent,
            ignore: self.ignore,
            pending: self.pending,
            infos: self.infos@,
            conds: self.conds@,
            fired: self.fired@,
            fires_left: self.fires_left,
            save: match self.save {
                Some(ref sv) => Some(sv@),
                None => None,
            },
            undecided: self.undecided,
            visited: self.visited@,
        }
    }
}

proof fn lemma_witems_snoc(v: Seq<WriteItem>, v2: Seq<WriteItem>)
    requires
        v2.len() == v.len() + 1,
        forall|i: int| 0 <= i < v.len() ==> v2[i] == v[i],
    ensures
        witems_view(v2) == witems_view(v).push(v2.last()@),
{
    let a = witems_view(v2);
    let b = witems_view(v).push(v2.last()@);
    assert forall|i: int| 0 <= i < a.len() implies a[i] == b[i] by {
        if i < v.len() {
            assert(v2[i] == v[i]);
        }
    }
    assert(a =~= b);
}

proof fn lemma_witems_take(v: Seq<WriteItem>, n: int)
    requires
        0 <= n <= v.len(),
    ensures
        witems_view(v.take(n)) == witems_view(v).take(n),
{
    let a = witems_view(v.take(n));
    let b = witems_view(v).take(n);
    assert forall|i: int| 0 <= i < a.len() implies a[i] == b[i] by {
        assert(v.take(n)[i] == v[i]);
    }
    assert(a =~= b);
}

fn copy_vec<T: Copy>(v: &Vec<T>) -> (r: Vec<T>)
    ensures
        r@ == v@,
{
    let mut r: Vec<T> = Vec::new();
    let mut i: usize = 0;
    while i < v.len()
        invariant
            i <= v.len(),
            r@ == v@.take(i as int),
        decreases v.len() - i,
    {
        r.push(v[i]);
        proof {
            assert(v@.take(i as int + 1) =~= v@.take(i as int).push(v@[i as int]));
        }
        i += 1;
    }
    proof {
        assert(v@.take(v@.len() as int) =~= v@);
    }
    r
}

fn fill_vec<T: Copy>(n: usize, x: T) -> (r: Vec<T>)
    ensures
        r@ == Seq::new(n as nat, |i: int| x),
{
    let mut r: Vec<T> = Vec::new();
    let mut i: usize = 0;
    while i < n
        invariant
            i <= n,
            r@ == Seq::new(i as nat, |k: int| x),
        decreases n - i,
    {
        r.push(x);
        proof {
            assert(r@ =~= Seq::new(i as nat + 1, |k: int| x));
        }
        i += 1;
    }
    r
}

fn mul_indent(ind: u32, tab: u32) -> (r: u64)
    ensures
        r == indent_cols(ind, tab),
{
    proof {
        assert((ind as int) * (tab as int) <= 0xffff_ffffu64 * 0xffff_ffffu64) by (nonlinear_arith)
            requires
                0 <= ind as int <= 0xffff_ffffu64,
                0 <= tab as int <= 0xffff_ffffu64,
        ;
    }
    (ind as u64) * (tab as u64)
}

fn make_snap(st: &PassSt) -> (r: SaveSt)
    ensures
        r@ == snap_of(st@),
{
    SaveSt {
        pc: st.pc,
        out_len: st.out.len(),
        line: st.line,
        col: st.col,
        indent: st.indent,
        ignore: st.ignore,
        pending: st.pending,
        infos: copy_vec(&st.infos),
        conds: copy_vec(&st.conds),
        undecided: st.undecided,
        visited: Ghost(st.visited@),
    }
}

fn ex_newline(st: &mut PassSt)
    requires
        old(st).pc < usize::MAX,
    ensures
        final(st)@ == do_newline(old(st)@),
{
    let ghost outv = st.out@;
    st.out.push(WriteItem::NewLine);
    st.line = add_sat64(st.line, 1);
    st.col = 0;
    st.pending = true;
    st.save = None;
    st.pc = st.pc + 1;
    proof {
        lemma_witems_snoc(outv, st.out@);
        assert(st@ =~~= do_newline(old(st)@));
    }
}

fn ex_content_start(st: &mut PassSt, tab: u32)
    ensures
        final(st)@ == content_start(old(st)@, tab),
{
    if st.pending {
        if st.ignore == 0 && st.indent > 0 {
            let ghost outv = st.out@;
            st.out.push(WriteItem::Indent(st.indent));
            st.col = mul_indent(st.indent, tab);
            st.pending = false;
            proof {
                lemma_witems_snoc(outv, st.out@);
                assert(st@ =~~= content_start(old(st)@, tab));
            }
        } else {
            st.col = 0;
            st.pending = false;
            proof {
                assert(st@ =~~= content_start(old(st)@, tab));
            }
        }
    } else {
        proof {
            assert(st@ =~~= content_start(old(st)@, tab));
        }
    }
}

fn ex_restore(st: &mut PassSt)
    requires
        old(st)@.save is Some,
        old(st)@.fires_left >= 1,
        old(st)@.save->Some_0.out_len <= old(st)@.out.len(),
        old(st)@.save->Some_0.pc < old(st)@.fired.len(),
    ensures
        final(st)@ == do_restore(old(st)@),
{
    let mut sv: Option<SaveSt> = None;
    std::mem::swap(&mut sv, &mut st.save);
    match sv {
        Some(sp) => {
            st.pc = sp.pc;
            st.out.truncate(sp.out_len);
            st.line = sp.line;
            st.col = sp.col;
            st.indent = sp.indent;
            st.ignore = sp.ignore;
            st.pending = sp.pending;
            st.infos = sp.infos;
            st.conds = sp.conds;
            st.undecided = sp.undecided;
            st.visited = Ghost(sp.visited@);
            st.fired[st.pc] = true;
            st.fires_left = st.fires_left - 1;
            proof {
                lemma_witems_take(old(st).out@, old(st)@.save->Some_0.out_len);
                assert(st@ =~~= do_restore(old(st)@));
            }
        },
        None => {
            proof {
                assert(false);
            }
        },
    }
}

fn ex_look(st: &PassSt, hints: &Vec<Option<InfoPos>>, id: u32) -> (r: Option<InfoPos>)
    ensures
        r == look(st@, hints@, id),
{
    if (id as usize) < st.infos.len() {
        match st.infos[id as usize] {
            Some(p) => Some(p),
            None => {
                if (id as usize) < hints.len() {
                    hints[id as usize]
                } else {
                    None
                }
            },
        }
    } else {
        None
    }
}

fn ex_eval(r: ConditionResolver, st: &PassSt, hints: &Vec<Option<InfoPos>>) -> (res: Option<
    bool,
>)
    ensures
        res == eval_resolver(r, st@, hints@),
{
    match r {
        ConditionResolver::IsMultipleLines(a, b) => {
            let pa = ex_look(st, hints, a);
            let pb = ex_look(st, hints, b);
            match (pa, pb) {
                (Some(x), Some(y)) => Some(x.line != y.line),
                _ => None,
            }
        },
        ConditionResolver::IsStartOfLine => Some(st.pending),
    }
}

fn space_string() -> (r: String)
    ensures
        r@ == seq![' '],
{
    let r = " ".to_owned();
    proof {
        reveal_strlit(" ");
        assert(r@ =~= seq![' ']);
    }
    r
}

/// The starting state of one pass: nothing committed, every break
/// opportunity unfired, every condition unvisited, every info unresolved.
pub open spec fn init_state(prog: Seq<PNode>, n: usize) -> SPass {
    SPass {
        pc: 0,
        out: Seq::empty(),
        line: 0,
        col: 0,
        indent: 0,
        ignore: 0,
        pending: true,
        infos: Seq::new(n as nat, |i: int| None),
        conds: Seq::new(prog.len(), |i: int| CondState::NotVisited),
        fired: Seq::new(prog.len(), |i: int| false),
        fires_left: prog.len() as usize,
        save: None,
        undecided: false,
        visited: Seq::empty(),
    }
}

proof fn lemma_init_inv(prog: Seq<PNode>, n: usize)
    requires
        prog.len() <= usize::MAX,
    ensures
        pass_inv(prog, init_state(prog, n)),
{
    lemma_count_false_all(Seq::new(prog.len(), |i: int| false));
}

/// Runs one committed pass over the program with the given hints and
/// returns exactly the state the model reaches.
pub(crate) fn run_pass(
    items: &PrintItems,
    o: GetWriteItemsOptions,
    hints: &Vec<Option<InfoPos>>,
    n_infos: usize,
) -> (st: PassSt)
    requires
        opts_valid(o),
    ensures
        st@ == run(items@, o, hints@, init_state(items@, n_infos)),
        st@.pc >= items@.len(),
        pass_inv(items@, st@),
{
    proof {
        use_type_invariant(items);
        crate::print_items::lemma_items_view(items);
    }
    let plen = items.nodes.len();
    proof {
        assert(items@.len() == items.nodes@.len());
    }
    let mut st = PassSt {
        pc: 0,
        out: Vec::new(),
        line: 0,
        col: 0,
        indent: 0,
        ignore: 0,
        pending: true,
        infos: fill_vec(n_infos, None),
        conds: fill_vec(plen, CondState::NotVisited),
        fired: fill_vec(plen, false),
        fires_left: plen,
        save: None,
        undecided: false,
        visited: Ghost(Seq::empty()),
    };
    proof {
        assert(st@ =~~= init_state(items@, n_infos));
        lemma_init_inv(items@, n_infos);
    }
    let ghost init = st@;
    let tab = o.indent_width;
    let maxw64: u64 = o.max_width as u64;
    while st.pc < plen
        invariant
            opts_valid(o),
            prog_wf(items@),
            plen == items.nodes.len(),
            items@.len() == plen,
            tab == o.indent_width,
            maxw64 == o.max_width as u64,
            items@ == items.nodes@.map_values(|n: PrintNode| n@),
            pass_inv(items@, st@),
            run(items@, o, hints@, st@) == run(items@, o, hints@, init),
        decreases st.fires_left, plen - st.pc,
    {
        let ghost pre = st@;
        proof {
            assert(node_wf(items@, st.pc as int));
            assert(items@[st.pc as int] == items.nodes@[st.pc as int]@);
        }
        let pc = st.pc;
        match &items.nodes[pc] {
            PrintNode::Text(txt) => {
                ex_content_start(&mut st, tab);
                let end = measure_text(st.col, txt, tab);
                if end > maxw64 && st.save.is_some() {
                    proof {
                        let sp = pre.save->Some_0;
                        lemma_count_false_update(pre.fired, sp.pc as int);
                    }
                    ex_restore(&mut st);
                    proof {
                        assert(st@.out =~= do_restore(pre).out);
                        assert(st@ =~~= do_restore(pre));
                        assert(st@ =~~= step(items@, o, hints@, pre));
                    }
                } else {
                    let ghost outv = st.out@;
                    st.out.push(WriteItem::Text(txt.clone()));
                    st.col = end;
                    st.pc = pc + 1;
                    proof {
                        lemma_witems_snoc(outv, st.out@);
                        assert(st@ =~~= step(items@, o, hints@, pre));
                    }
                }
            },
            PrintNode::Signal(g) => {
                let g = *g;
                match g {
                    Signal::NewLine => {
                        ex_newline(&mut st);
                        proof {
                            assert(st@ =~~= step(items@, o, hints@, pre));
                        }
                    },
                    Signal::ExpectNewLine => {
                        if st.pending {
                            st.pc = pc + 1;
                        } else {
                            ex_newline(&mut st);
                        }
                        proof {
                            assert(st@ =~~= step(items@, o, hints@, pre));
                        }
                    },
                    Signal::Tab => {
                        ex_content_start(&mut st, tab);
                        let t64: u64 = tab as u64;
                        let m: u64 = st.col % t64;
                        let end = add_sat64(st.col, t64 - m);
                        let ghost outv = st.out@;
                        st.out.push(WriteItem::Tab);
                        st.col = end;
                        st.pc = pc + 1;
                        proof {
                            lemma_witems_snoc(outv, st.out@);
                            assert(st@ =~~= step(items@, o, hints@, pre));
                        }
                    },
                    Signal::StartIndent => {
                        st.indent = add_sat32(st.indent, 1);
                        st.pc = pc + 1;
                        proof {
                            assert(st@ =~~= step(items@, o, hints@, pre));
                        }
                    },
                    Signal::FinishIndent => {
                        if st.indent > 0 {
                            st.indent = st.indent - 1;
                        } else {
                            st.indent = 0;
                        }
                        st.pc = pc + 1;
                        proof {
                            assert(st@ =~~= step(items@, o, hints@, pre));
                        }
                    },
                    Signal::StartIgnoringIndent => {
                        st.ignore = add_sat32(st.ignore, 1);
                        st.pc = pc + 1;
                        proof {
                            assert(st@ =~~= step(items@, o, hints@, pre));
                        }
                    },
                    Signal::FinishIgnoringIndent => {
                        if st.ignore > 0 {
                            st.ignore = st.ignore - 1;
                        } else {
                            st.ignore = 0;
                        }
                        st.pc = pc + 1;
                        proof {
                            assert(st@ =~~= step(items@, o, hints@, pre));
                        }
                    },
                    Signal::SpaceOrNewLine => {
                        if st.fired[pc] {
                            ex_newline(&mut st);
                            proof {
                                assert(st@ =~~= step(items@, o, hints@, pre));
                            }
                        } else {
                            let snap = make_snap(&st);
                            st.save = Some(snap);
                            let ghost s2 = st@;
                            proof {
                                assert(s2 =~~= SPass { save: Some(snap_of(pre)), ..pre });
                            }
                            ex_content_start(&mut st, tab);
                            let end = add_sat64(st.col, 1);
                            if end > maxw64 {
                                proof {
                                    lemma_count_false_update(pre.fired, pc as int);
                                }
                                ex_restore(&mut st);
                                proof {
                                    assert(st@.out =~= do_restore(s2).out);
                                    assert(st@ =~~= do_restore(s2));
                                    assert(st@ =~~= step(items@, o, hints@, pre));
                                }
                            } else {
                                let ghost outv = st.out@;
                                st.out.push(WriteItem::Text(space_string()));
                                st.col = end;
                                st.pc = pc + 1;
                                proof {
                                    lemma_witems_snoc(outv, st.out@);
                                    assert(st@ =~~= step(items@, o, hints@, pre));
                                }
                            }
                        }
                    },
                    Signal::PossibleNewLine => {
                        if st.fired[pc] {
                            ex_newline(&mut st);
                            proof {
                                assert(st@ =~~= step(items@, o, hints@, pre));
                            }
                        } else {
                            let snap = make_snap(&st);
                            st.save = Some(snap);
                            st.pc = pc + 1;
                            proof {
                                assert(st@ =~~= step(items@, o, hints@, pre));
                            }
                        }
                    },
                }
            },
            PrintNode::Info(id) => {
                let id = *id;
                let effcol: u64 = if st.pending {
                    0
                } else {
                    st.col
                };
                let eff = InfoPos { line: st.line, col: effcol, indent: st.indent };
                if (id as usize) < st.infos.len() {
                    st.infos[id as usize] = Some(eff);
                    st.visited = Ghost(st.visited@.push(eff));
                }
                st.pc = pc + 1;
                proof {
                    assert(st@ =~~= step(items@, o, hints@, pre));
                }
            },
            PrintNode::Condition(_cid, r, d) => {
                let d = *d;
                let r = *r;
                let res = ex_eval(r, &st, hints);
                match res {
                    Some(bv) => {
                        st.conds[pc] = CondState::Decided(bv);
                        if bv {
                            st.pc = pc + 1;
                        } else {
                            st.pc = pc + d;
                        }
                    },
                    None => {
                        st.conds[pc] = CondState::Undecided;
                        st.undecided = true;
                        st.pc = pc + d;
                    },
                }
                proof {
                    assert(st@ =~~= step(items@, o, hints@, pre));
                }
            },
            PrintNode::Jump(d) => {
                let d = *d;
                st.pc = pc + d;
                proof {
                    assert(st@ =~~= step(items@, o, hints@, pre));
                }
            },
        }
        proof {
            lemma_step_ok(items@, o, hints@, pre);
            assert(run(items@, o, hints@, pre) == run(items@, o, hints@, st@));
        }
    }
    proof {
        assert(run(items@, o, hints@, st@) == st@);
    }
    st
}


// ---------------------------------------------------------------------------
// Dangling-reference scan, info-count scan, and the stability check that
// decides whether another resolution attempt is owed.
// ---------------------------------------------------------------------------

/// One more than the largest info identifier the resolver consults
/// (saturating at the machine limit).
pub open spec fn resolver_needed(r: ConditionResolver) -> int {
    match r {
        ConditionResolver::IsMultipleLines(a, b) => {
            let m: int = if a >= b {
                a as int
            } else {
                b as int
            };
            if m + 1 > usize::MAX {
                usize::MAX as int
            } else {
                m + 1
            }
        },
        ConditionResolver::IsStartOfLine => 0,
    }
}

/// The number of info slots the program needs: one past the largest info
/// identifier any node declares or consults.
pub open spec fn needed_infos(prog: Seq<PNode>) -> int
    decreases prog.len(),
{
    if prog.len() == 0 {
        0
    } else {
        let rest = needed_infos(prog.drop_last());
        let mine: int = match prog.last() {
            PNode::Info(id) => if id as int + 1 > usize::MAX {
                usize::MAX as int
            } else {
                id as int + 1
            },
            PNode::Condition(_id, r, _d) => resolver_needed(r),
            _ => 0,
        };
        if mine > rest {
            mine
        } else {
            rest
        }
    }
}

proof fn lemma_needed_bound(prog: Seq<PNode>)
    ensures
        0 <= needed_infos(prog) <= usize::MAX,
    decreases prog.len(),
{
    if prog.len() > 0 {
        lemma_needed_bound(prog.drop_last());
    }
}

/// The identifier `id` is declared by some `Info` node of the program.
pub open spec fn declared(prog: Seq<PNode>, id: u32) -> bool {
    exists|i: int| 0 <= i < prog.len() && prog[i] == PNode::Info(id)
}

/// The first identifier this resolver consults that no node declares.
pub open spec fn resolver_dangling(prog: Seq<PNode>, r: ConditionResolver) -> Option<u32> {
    match r {
        ConditionResolver::IsMultipleLines(a, b) => if !declared(prog, a) {
            Some(a)
        } else if !declared(prog, b) {
            Some(b)
        } else {
            None
        },
        ConditionResolver::IsStartOfLine => None,
    }
}

/// The first dangling info reference at or after node `i`, scanning in
/// program order.
pub open spec fn dangling_from(prog: Seq<PNode>, i: int) -> Option<u32>
    decreases prog.len() - i,
{
    if i < 0 || i >= prog.len() {
        None
    } else {
        match prog[i] {
            PNode::Condition(_id, r, _d) => match resolver_dangling(prog, r) {
                Some(x) => Some(x),
                None => dangling_from(prog, i + 1),
            },
            _ => dangling_from(prog, i + 1),
        }
    }
}

/// A resolver's answer against the final committed info positions alone,
/// with no provisional hints.
pub open spec fn eval_final(r: ConditionResolver, infos: Seq<Option<InfoPos>>) -> Option<bool> {
    match r {
        ConditionResolver::IsMultipleLines(a, b) => {
            let pa: Option<InfoPos> = if a < infos.len() {
                infos[a as int]
            } else {
                None
            };
            let pb: Option<InfoPos> = if b < infos.len() {
                infos[b as int]
            } else {
                None
            };
            match (pa, pb) {
                (Some(x), Some(y)) => Some(x.line != y.line),
                _ => None,
            }
        },
        ConditionResolver::IsStartOfLine => None,
    }
}

/// The first condition, in program order from `i`, whose committed outcome
/// is not justified by the final state of the pass: one left undecided, or
/// an info-dependent one whose resolver now answers differently.
pub open spec fn unstable_from(prog: Seq<PNode>, s: SPass, i: int) -> Option<u32>
    decreases prog.len() - i,
{
    if i < 0 || i >= prog.len() || s.conds.len() != prog.len() {
        None
    } else {
        match prog[i] {
            PNode::Condition(id, r, _d) => match s.conds[i] {
                CondState::Undecided => Some(id),
                CondState::Decided(bv) => match r {
                    ConditionResolver::IsMultipleLines(_a, _b) => if eval_final(r, s.infos)
                        == Some(bv) {
                        unstable_from(prog, s, i + 1)
                    } else {
                        Some(id)
                    },
                    ConditionResolver::IsStartOfLine => unstable_from(prog, s, i + 1),
                },
                CondState::NotVisited => unstable_from(prog, s, i + 1),
            },
            _ => unstable_from(prog, s, i + 1),
        }
    }
}

// ---------------------------------------------------------------------------
// The bounded sequence of resolution attempts.
// ---------------------------------------------------------------------------

pub open spec fn none_hints(n: usize) -> Seq<Option<InfoPos>> {
    Seq::new(n as nat, |i: int| None)
}

/// Runs whole passes until every committed condition is stable, carrying
/// each pass's final info positions into the next as hints; gives up with
/// the offending condition's identifier when the attempt budget runs out.
pub open spec fn run_passes(
    prog: Seq<PNode>,
    o: GetWriteItemsOptions,
    hints: Seq<Option<InfoPos>>,
    n: usize,
    left: nat,
) -> Result<SPass, u32>
    decreases left,
{
    let s = run(prog, o, hints, init_state(prog, n));
    match unstable_from(prog, s, 0) {
        None => Ok(s),
        Some(id) => if left == 0 {
            Err(id)
        } else {
            run_passes(prog, o, s.infos, n, (left - 1) as nat)
        },
    }
}

/// The resolution-attempt budget: the program length plus two, so that a
/// chain of forward references can settle, while a genuinely cyclic pair of
/// conditions fails deterministically.
pub open spec fn max_passes(prog: Seq<PNode>) -> nat {
    if prog.len() + 2 <= usize::MAX {
        prog.len() + 2
    } else {
        usize::MAX as nat
    }
}

/// What resolving a program into write items returns, in full: the exact
/// sequence of write items on success, and the exact error otherwise.
pub open spec fn spec_get_write_items(prog: Seq<PNode>, o: GetWriteItemsOptions) -> Result<
    Seq<WItem>,
    PrintError,
> {
    if !opts_valid(o) {
        Err(PrintError::InvalidConfig)
    } else {
        match dangling_from(prog, 0) {
            Some(id) => Err(PrintError::DanglingInfo(id)),
            None => {
                let n = needed_infos(prog) as usize;
                match run_passes(prog, o, none_hints(n), n, max_passes(prog)) {
                    Ok(s) => Ok(s.out),
                    Err(id) => Err(PrintError::ResolutionExhausted(id)),
                }
            },
        }
    }
}

/// The final state of the successful pass, for reasoning about what a
/// successful print committed.
pub open spec fn spec_final_state(prog: Seq<PNode>, o: GetWriteItemsOptions) -> SPass {
    let n = needed_infos(prog) as usize;
    run_passes(prog, o, none_hints(n), n, max_passes(prog))->Ok_0
}

fn scan_infos(items: &PrintItems) -> (n: usize)
    ensures
        n == needed_infos(items@),
{
    proof {
        use_type_invariant(items);
        crate::print_items::lemma_items_view(items);
    }
    let mut acc: usize = 0;
    let mut i: usize = 0;
    let plen = items.nodes.len();
    while i < plen
        invariant
            i <= plen,
            plen == items.nodes.len(),
            items@ == items.nodes@.map_values(|m: PrintNode| m@),
            items@.len() == plen,
            acc == needed_infos(items@.take(i as int)),
        decreases plen - i,
    {
        proof {
            assert(items@[i as int] == items.nodes@[i as int]@);
        }
        let cand: usize = match &items.nodes[i] {
            PrintNode::Info(id) => {
                let id = *id;
                if (id as usize) < usize::MAX {
                    (id as usize) + 1
                } else {
                    usize::MAX
                }
            },
            PrintNode::Condition(_cid, r, _d) => {
                match r {
                    ConditionResolver::IsMultipleLines(a, b) => {
                        let m: u32 = if *a >= *b {
                            *a
                        } else {
                            *b
                        };
                        if (m as usize) < usize::MAX {
                            (m as usize) + 1
                        } else {
                            usize::MAX
                        }
                    },
                    ConditionResolver::IsStartOfLine => 0,
                }
            },
            _ => 0,
        };
        if cand > acc {
            acc = cand;
        }
        proof {
            assert(items@.take(i as int + 1).drop_last() =~= items@.take(i as int));
            assert(items@.take(i as int + 1).last() == items@[i as int]);
        }
        i += 1;
    }
    proof {
        assert(items@.take(plen as int) =~= items@);
    }
    acc
}

fn is_declared(items: &PrintItems, id: u32) -> (b: bool)
    ensures
        b == declared(items@, id),
{
    proof {
        use_type_invariant(items);
        crate::print_items::lemma_items_view(items);
    }
    let plen = items.nodes.len();
    let mut i: usize = 0;
    while i < plen
        invariant
            i <= plen,
            plen == items.nodes.len(),
            items@ == items.nodes@.map_values(|m: PrintNode| m@),
            items@.len() == plen,
            forall|k: int| 0 <= k < i ==> items@[k] != PNode::Info(id),
        decreases plen - i,
    {
        proof {
            assert(items@[i as int] == items.nodes@[i as int]@);
        }
        match &items.nodes[i] {
            PrintNode::Info(x) => {
                if *x == id {
                    proof {
                        assert(items@[i as int] == PNode::Info(id));
                    }
                    return true;
                }
            },
            _ => {},
        }
        i += 1;
    }
    proof {
        assert(!declared(items@, id));
    }
    false
}

fn find_dangling(items: &PrintItems) -> (r: Option<u32>)
    ensures
        r == dangling_from(items@, 0),
{
    proof {
        use_type_invariant(items);
        crate::print_items::lemma_items_view(items);
    }
    let plen = items.nodes.len();
    let mut i: usize = 0;
    while i < plen
        invariant
            i <= plen,
            plen == items.nodes.len(),
            items@ == items.nodes@.map_values(|m: PrintNode| m@),
            items@.len() == plen,
            dangling_from(items@, 0) == dangling_from(items@, i as int),
        decreases plen - i,
    {
        proof {
            assert(items@[i as int] == items.nodes@[i as int]@);
        }
        match &items.nodes[i] {
            PrintNode::Condition(_cid, r, _d) => {
                match r {
                    ConditionResolver::IsMultipleLines(a, b) => {
                        if !is_declared(items, *a) {
                            return Some(*a);
                        }
                        if !is_declared(items, *b) {
                            return Some(*b);
                        }
                    },
                    ConditionResolver::IsStartOfLine => {},
                }
            },
            _ => {},
        }
        i += 1;
    }
    None
}

fn ex_eval_final(r: ConditionResolver, infos: &Vec<Option<InfoPos>>) -> (res: Option<bool>)
    ensures
        res == eval_final(r, infos@),
{
    match r {
        ConditionResolver::IsMultipleLines(a, b) => {
            let pa: Option<InfoPos> = if (a as usize) < infos.len() {
                infos[a as usize]
            } else {
                None
            };
            let pb: Option<InfoPos> = if (b as usize) < infos.len() {
                infos[b as usize]
            } else {
                None
            };
            match (pa, pb) {
                (Some(x), Some(y)) => Some(x.line != y.line),
                _ => None,
            }
        },
        ConditionResolver::IsStartOfLine => None,
    }
}

fn find_unstable(items: &PrintItems, st: &PassSt) -> (r: Option<u32>)
    requires
        st@.conds.len() == items@.len(),
    ensures
        r == unstable_from(items@, st@, 0),
{
    proof {
        use_type_invariant(items);
        crate::print_items::lemma_items_view(items);
    }
    let plen = items.nodes.len();
    let mut i: usize = 0;
    while i < plen
        invariant
            i <= plen,
            plen == items.nodes.len(),
            items@ == items.nodes@.map_values(|m: PrintNode| m@),
            items@.len() == plen,
            st@.conds.len() == plen,
            unstable_from(items@, st@, 0) == unstable_from(items@, st@, i as int),
        decreases plen - i,
    {
        proof {
            assert(items@[i as int] == items.nodes@[i as int]@);
        }
        match &items.nodes[i] {
            PrintNode::Condition(cid, r, _d) => {
                match st.conds[i] {
                    CondState::Undecided => {
                        return Some(*cid);
                    },
                    CondState::Decided(bv) => {
                        match r {
                            ConditionResolver::IsMultipleLines(_a, _b) => {
                                let fin = ex_eval_final(*r, &st.infos);
                                let stable = match fin {
                                    Some(fv) => fv == bv,
                                    None => false,
                                };
                                if !stable {
                                    return Some(*cid);
                                }
                            },
                            ConditionResolver::IsStartOfLine => {},
                        }
                    },
                    CondState::NotVisited => {},
                }
            },
            _ => {},
        }
        i += 1;
    }
    None
}

fn passes_loop(
    items: &PrintItems,
    o: GetWriteItemsOptions,
    hints: Vec<Option<InfoPos>>,
    n: usize,
    left: usize,
) -> (r: Result<PassSt, PrintError>)
    requires
        opts_valid(o),
    ensures
        match r {
            Ok(st) => run_passes(items@, o, hints@, n, left as nat) == Ok::<SPass, u32>(st@),
            Err(e) => match e {
                PrintError::ResolutionExhausted(id) => run_passes(items@, o, hints@, n, left as nat)
                    == Err::<SPass, u32>(id),
                _ => false,
            },
        },
    decreases left,
{
    let st = run_pass(items, o, &hints, n);
    proof {
        use_type_invariant(items);
    }
    match find_unstable(items, &st) {
        None => {
            proof {
                assert(run_passes(items@, o, hints@, n, left as nat) == Ok::<SPass, u32>(st@));
            }
            Ok(st)
        },
        Some(id) => {
            if left == 0 {
                Err(PrintError::ResolutionExhausted(id))
            } else {
                passes_loop(items, o, st.infos, n, left - 1)
            }
        },
    }
}

/// Resolves the tree into the flat write-item sequence, or fails with the
/// exact error the model assigns: an invalid configuration, the first
/// dangling info reference, or resolution exhaustion on the named
/// condition.
pub fn get_write_items(items: &PrintItems, o: GetWriteItemsOptions) -> (r: Result<
    Vec<WriteItem>,
    PrintError,
>)
    ensures
        match r {
            Ok(ws) => spec_get_write_items(items@, o) == Ok::<Seq<WItem>, PrintError>(
                witems_view(ws@),
            ),
            Err(e) => spec_get_write_items(items@, o) == Err::<Seq<WItem>, PrintError>(e),
        },
{
    if o.max_width < 1 || o.indent_width < 1 {
        return Err(PrintError::InvalidConfig);
    }
    match find_dangling(items) {
        Some(id) => {
            return Err(PrintError::DanglingInfo(id));
        },
        None => {},
    }
    let n = scan_infos(items);
    proof {
        lemma_needed_bound(items@);
    }
    let hints: Vec<Option<InfoPos>> = fill_vec(n, None);
    let plen = items.nodes.len();
    let left: usize = if plen <= usize::MAX - 2 {
        plen + 2
    } else {
        usize::MAX
    };
    proof {
        use_type_invariant(items);
        crate::print_items::lemma_items_view(items);
        assert(left as nat == max_passes(items@));
        assert(hints@ == none_hints(n));
    }
    match passes_loop(items, o, hints, n, left) {
        Ok(st) => Ok(st.out),
        Err(e) => Err(e),
    }
}

/// The positions at which the successful print resolved each info
/// identifier: index `i` holds the final line, column and indent level of
/// info `i`, or nothing for an info the committed path never passed. Fails
/// exactly when resolving the tree fails.
pub fn get_resolved_infos(items: &PrintItems, o: GetWriteItemsOptions) -> (r: Result<
    Vec<Option<InfoPos>>,
    PrintError,
>)
    ensures
        match r {
            Ok(v) => spec_get_write_items(items@, o) is Ok && v@ == spec_final_state(
                items@,
                o,
            ).infos,
            Err(e) => spec_get_write_items(items@, o) == Err::<Seq<WItem>, PrintError>(e),
        },
{
    if o.max_width < 1 || o.indent_width < 1 {
        return Err(PrintError::InvalidConfig);
    }
    match find_dangling(items) {
        Some(id) => {
            return Err(PrintError::DanglingInfo(id));
        },
        None => {},
    }
    let n = scan_infos(items);
    proof {
        lemma_needed_bound(items@);
    }
    let hints: Vec<Option<InfoPos>> = fill_vec(n, None);
    let plen = items.nodes.len();
    let left: usize = if plen <= usize::MAX - 2 {
        plen + 2
    } else {
        usize::MAX
    };
    proof {
        use_type_invariant(items);
        crate::print_items::lemma_items_view(items);
        assert(left as nat == max_passes(items@));
        assert(hints@ == none_hints(n));
    }
    match passes_loop(items, o, hints, n, left) {
        Ok(st) => Ok(st.infos),
        Err(e) => Err(e),
    }
}


// ---------------------------------------------------------------------------
// What a successful print guarantees about its conditions.
// ---------------------------------------------------------------------------

proof fn lemma_run_inv(
    prog: Seq<PNode>,
    o: GetWriteItemsOptions,
    hints: Seq<Option<InfoPos>>,
    s: SPass,
)
    requires
        prog_wf(prog),
        opts_valid(o),
        pass_inv(prog, s),
    ensures
        pass_inv(prog, run(prog, o, hints, s)),
    decreases s.fires_left, prog.len() - s.pc,
{
    if s.pc < prog.len() {
        lemma_step_ok(prog, o, hints, s);
        lemma_run_inv(prog, o, hints, step(prog, o, hints, s));
    }
}

proof fn lemma_passes_ok(
    prog: Seq<PNode>,
    o: GetWriteItemsOptions,
    hints: Seq<Option<InfoPos>>,
    n: usize,
    left: nat,
)
    requires
        prog_wf(prog),
        opts_valid(o),
        prog.len() <= usize::MAX,
        run_passes(prog, o, hints, n, left) is Ok,
    ensures
        unstable_from(prog, run_passes(prog, o, hints, n, left)->Ok_0, 0) is None,
        pass_inv(prog, run_passes(prog, o, hints, n, left)->Ok_0),
    decreases left,
{
    let s = run(prog, o, hints, init_state(prog, n));
    lemma_init_inv(prog, n);
    lemma_run_inv(prog, o, hints, init_state(prog, n));
    match unstable_from(prog, s, 0) {
        None => {},
        Some(_id) => {
            lemma_passes_ok(prog, o, s.infos, n, (left - 1) as nat);
        },
    }
}

proof fn lemma_unstable_upto(prog: Seq<PNode>, s: SPass, i: int)
    requires
        unstable_from(prog, s, 0) is None,
        0 <= i <= prog.len(),
    ensures
        unstable_from(prog, s, i) is None,
    decreases i,
{
    if i > 0 {
        lemma_unstable_upto(prog, s, i - 1);
    }
}

/// Condition finality: once a print has succeeded, every condition the
/// committed pass visited was decided (none left undecided), and
/// re-invoking a committed info-dependent resolver against the final
/// resolved info positions returns exactly the branch that was committed.
pub proof fn lemma_condition_finality(prog: Seq<PNode>, o: GetWriteItemsOptions, i: int)
    requires
        prog_wf(prog),
        prog.len() <= usize::MAX,
        spec_get_write_items(prog, o) is Ok,
        0 <= i < prog.len(),
        prog[i] is Condition,
    ensures
        !(spec_final_state(prog, o).conds[i] is Undecided),
        (spec_final_state(prog, o).conds[i] is Decided && prog[i]->Condition_1
            is IsMultipleLines) ==> eval_final(prog[i]->Condition_1, spec_final_state(prog, o).infos)
            == Some(spec_final_state(prog, o).conds[i]->Decided_0),
{
    let n = needed_infos(prog) as usize;
    lemma_passes_ok(prog, o, none_hints(n), n, max_passes(prog));
    let s = spec_final_state(prog, o);
    lemma_unstable_upto(prog, s, i);
    assert(unstable_from(prog, s, i) is None);
}


// ---------------------------------------------------------------------------
// Info ordering: infos commit in nondecreasing position order.
// ---------------------------------------------------------------------------

/// Position order on committed infos: a strictly earlier line, or the same
/// line and a column no greater. On the one unreachable line where the
/// 64-bit line counter saturates, column order is not claimed.
pub open spec fn pos_le(a: InfoPos, b: InfoPos) -> bool {
    ||| a.line < b.line
    ||| (a.line == b.line && (a.col <= b.col || b.line == u64::MAX))
}

/// The column committed to the current line so far: zero while the line is
/// still pending.
pub open spec fn cur_col(pending: bool, col: u64) -> u64 {
    if pending {
        0
    } else {
        col
    }
}

/// The committed info positions are pairwise ordered and all lie at or
/// before the current position.
pub open spec fn vis_ok(v: Seq<InfoPos>, line: u64, col: u64) -> bool {
    &&& forall|k1: int, k2: int|
        0 <= k1 <= k2 < v.len() ==> pos_le(#[trigger] v[k1], #[trigger] v[k2])
    &&& forall|k: int|
        0 <= k < v.len() ==> pos_le(#[trigger] v[k], InfoPos { line, col, indent: 0 })
}

pub open spec fn inv_ordered(s: SPass) -> bool {
    &&& vis_ok(s.visited, s.line, cur_col(s.pending, s.col))
    &&& match s.save {
        Some(sp) => vis_ok(sp.visited, sp.line, cur_col(sp.pending, sp.col)),
        None => true,
    }
}

proof fn lemma_char_adv_ge(col: u64, c: char, tab: u32)
    requires
        tab >= 1,
    ensures
        char_adv(col, c, tab) >= col,
{
}

proof fn lemma_text_end_ge(col: u64, cs: Seq<char>, tab: u32)
    requires
        tab >= 1,
    ensures
        text_end(col, cs, tab) >= col,
    decreases cs.len(),
{
    if cs.len() > 0 {
        lemma_char_adv_ge(col, cs[0], tab);
        lemma_text_end_ge(char_adv(col, cs[0], tab), cs.drop_first(), tab);
    }
}

/// Raising the current position preserves the bound on committed infos.
proof fn lemma_vis_ok_advance(v: Seq<InfoPos>, l1: u64, c1: u64, l2: u64, c2: u64)
    requires
        vis_ok(v, l1, c1),
        l1 < l2 || (l1 == l2 && (c1 <= c2 || l2 == u64::MAX)),
    ensures
        vis_ok(v, l2, c2),
{
    assert forall|k: int| 0 <= k < v.len() implies pos_le(
        #[trigger] v[k],
        InfoPos { line: l2, col: c2, indent: 0 },
    ) by {
        assert(pos_le(v[k], InfoPos { line: l1, col: c1, indent: 0 }));
    }
}

proof fn lemma_step_ordered(
    prog: Seq<PNode>,
    o: GetWriteItemsOptions,
    hints: Seq<Option<InfoPos>>,
    s: SPass,
)
    requires
        prog_wf(prog),
        opts_valid(o),
        pass_inv(prog, s),
        s.pc < prog.len(),
        inv_ordered(s),
    ensures
        inv_ordered(step(prog, o, hints, s)),
{
    let tab = o.indent_width;
    let s2 = step(prog, o, hints, s);
    let c0 = cur_col(s.pending, s.col);
    match prog[s.pc as int] {
        PNode::Text(txt) => {
            if !(text_end(content_start(s, tab).col, txt, tab) > o.max_width as u64 && s.save
                is Some) {
                lemma_text_end_ge(content_start(s, tab).col, txt, tab);
                lemma_vis_ok_advance(s.visited, s.line, c0, s2.line, cur_col(s2.pending, s2.col));
            }
        },
        PNode::Signal(g) => {
            match g {
                Signal::NewLine | Signal::ExpectNewLine => {
                    lemma_vis_ok_advance(
                        s.visited,
                        s.line,
                        c0,
                        s2.line,
                        cur_col(s2.pending, s2.col),
                    );
                },
                Signal::Tab => {
                    lemma_char_adv_ge(content_start(s, tab).col, '\t', tab);
                    lemma_vis_ok_advance(s.visited, s.line, c0, s2.line, cur_col(s2.pending, s2.col));
                },
                Signal::SpaceOrNewLine => {
                    if s.fired[s.pc as int] {
                        lemma_vis_ok_advance(
                            s.visited,
                            s.line,
                            c0,
                            s2.line,
                            cur_col(s2.pending, s2.col),
                        );
                    } else {
                        let sx = SPass { save: Some(snap_of(s)), ..s };
                        let s1 = content_start(sx, tab);
                        if !(sat_add64(s1.col, 1) > o.max_width as u64) {
                            lemma_vis_ok_advance(
                                s.visited,
                                s.line,
                                c0,
                                s2.line,
                                cur_col(s2.pending, s2.col),
                            );
                        }
                    }
                },
                Signal::PossibleNewLine => {
                    if s.fired[s.pc as int] {
                        lemma_vis_ok_advance(
                            s.visited,
                            s.line,
                            c0,
                            s2.line,
                            cur_col(s2.pending, s2.col),
                        );
                    }
                },
                _ => {},
            }
        },
        PNode::Info(id) => {
            if id < s.infos.len() {
                let eff = eff_pos(s, tab);
                assert forall|k1: int, k2: int|
                    0 <= k1 <= k2 < s2.visited.len() implies pos_le(
                    #[trigger] s2.visited[k1],
                    #[trigger] s2.visited[k2],
                ) by {
                    if k2 < s.visited.len() {
                        assert(pos_le(s.visited[k1], s.visited[k2]));
                    } else {
                        assert(s2.visited[k2] == eff);
                        if k1 < s.visited.len() {
                            assert(pos_le(
                                s.visited[k1],
                                InfoPos { line: s.line, col: c0, indent: 0 },
                            ));
                        }
                    }
                }
                assert forall|k: int| 0 <= k < s2.visited.len() implies pos_le(
                    #[trigger] s2.visited[k],
                    InfoPos { line: s2.line, col: cur_col(s2.pending, s2.col), indent: 0 },
                ) by {
                    if k < s.visited.len() {
                        assert(pos_le(s.visited[k], InfoPos { line: s.line, col: c0, indent: 0 }));
                    } else {
                        assert(s2.visited[k] == eff);
                    }
                }
            }
        },
        _ => {},
    }
}

proof fn lemma_run_ordered(
    prog: Seq<PNode>,
    o: GetWriteItemsOptions,
    hints: Seq<Option<InfoPos>>,
    s: SPass,
)
    requires
        prog_wf(prog),
        opts_valid(o),
        pass_inv(prog, s),
        inv_ordered(s),
    ensures
        inv_ordered(run(prog, o, hints, s)),
    decreases s.fires_left, prog.len() - s.pc,
{
    if s.pc < prog.len() {
        lemma_step_ok(prog, o, hints, s);
        lemma_step_ordered(prog, o, hints, s);
        lemma_run_ordered(prog, o, hints, step(prog, o, hints, s));
    }
}

proof fn lemma_passes_ordered(
    prog: Seq<PNode>,
    o: GetWriteItemsOptions,
    hints: Seq<Option<InfoPos>>,
    n: usize,
    left: nat,
)
    requires
        prog_wf(prog),
        opts_valid(o),
        prog.len() <= usize::MAX,
        run_passes(prog, o, hints, n, left) is Ok,
    ensures
        inv_ordered(run_passes(prog, o, hints, n, left)->Ok_0),
    decreases left,
{
    let s0 = init_state(prog, n);
    lemma_init_inv(prog, n);
    lemma_run_ordered(prog, o, hints, s0);
    let s = run(prog, o, hints, s0);
    match unstable_from(prog, s, 0) {
        None => {},
        Some(_id) => {
            lemma_passes_ordered(prog, o, s.infos, n, (left - 1) as nat);
        },
    }
}

/// Info ordering: on a successful print, the infos commit in nondecreasing
/// position order. For any infos committed earlier and later, the earlier
/// one lies on an earlier line, or on the same line at a column no greater
/// (column order is not claimed on the one unreachable line at which the
/// 64-bit line counter saturates).
pub proof fn lemma_info_ordering(prog: Seq<PNode>, o: GetWriteItemsOptions, k1: int, k2: int)
    requires
        prog_wf(prog),
        prog.len() <= usize::MAX,
        spec_get_write_items(prog, o) is Ok,
        0 <= k1 <= k2 < spec_final_state(prog, o).visited.len(),
    ensures
        pos_le(spec_final_state(prog, o).visited[k1], spec_final_state(prog, o).visited[k2]),
{
    let n = needed_infos(prog) as usize;
    lemma_passes_ordered(prog, o, none_hints(n), n, max_passes(prog));
}


// ---------------------------------------------------------------------------
// Width respect for flat word-wrap programs.
// ---------------------------------------------------------------------------

/// A break opportunity or a forced break.
pub open spec fn is_break_sig(n: PNode) -> bool {
    ||| n == PNode::Signal(Signal::NewLine)
    ||| n == PNode::Signal(Signal::SpaceOrNewLine)
    ||| n == PNode::Signal(Signal::PossibleNewLine)
}

/// A flat word-wrap program: literal text separated by break opportunities
/// and forced breaks, with no indentation scopes and no conditions, and a
/// break opportunity directly before every text run but the first.
pub open spec fn flat_prog(prog: Seq<PNode>) -> bool {
    &&& forall|i: int|
        0 <= i < prog.len() ==> ((#[trigger] prog[i]) is Text || is_break_sig(prog[i]))
    &&& forall|i: int|
        0 < i < prog.len() && (#[trigger] prog[i]) is Text ==> is_break_sig(prog[i - 1])
}

/// Folds the write items into the finished lines and the trailing line,
/// each as its rendered width and its count of content runs.
pub open spec fn line_acc(ws: Seq<WItem>, tab: u32) -> (Seq<(u64, nat)>, (u64, nat))
    decreases ws.len(),
{
    if ws.len() == 0 {
        (Seq::<(u64, nat)>::empty(), (0u64, 0nat))
    } else {
        let prev = line_acc(ws.drop_last(), tab);
        match ws.last() {
            WItem::NewLine => (prev.0.push(prev.1), (0u64, 0nat)),
            WItem::Text(s) => (prev.0, (text_end(prev.1.0, s, tab), prev.1.1 + 1)),
            WItem::Tab => (prev.0, (char_adv(prev.1.0, '\t', tab), prev.1.1 + 1)),
            WItem::Indent(d) => (prev.0, (sat_add64(prev.1.0, indent_cols(d, tab)), prev.1.1)),
        }
    }
}

/// A line respects the width budget, or holds at most one unbreakable
/// content run.
pub open spec fn line_ok(l: (u64, nat), max_width: u32) -> bool {
    l.0 <= max_width || l.1 <= 1
}

/// Every finished line of the output, and the trailing line, respects the
/// width budget or consists of a single unbreakable content run.
pub open spec fn lines_ok(ws: Seq<WItem>, o: GetWriteItemsOptions) -> bool {
    &&& forall|k: int|
        0 <= k < line_acc(ws, o.indent_width).0.len() ==> line_ok(
            #[trigger] line_acc(ws, o.indent_width).0[k],
            o.max_width,
        )
    &&& line_ok(line_acc(ws, o.indent_width).1, o.max_width)
}

spec fn width_inv(prog: Seq<PNode>, o: GetWriteItemsOptions, s: SPass) -> bool {
    let acc = line_acc(s.out, o.indent_width);
    &&& s.indent == 0
    &&& s.ignore == 0
    &&& forall|k: int|
        0 <= k < acc.0.len() ==> line_ok(#[trigger] acc.0[k], o.max_width)
    &&& line_ok(acc.1, o.max_width)
    &&& (s.pending ==> acc.1 == (0u64, 0nat))
    &&& (!s.pending ==> acc.1.0 == s.col)
    &&& (s.pc < prog.len() && prog[s.pc as int] is Text ==> (s.save is Some || acc.1.1 == 0))
    &&& match s.save {
        Some(sp) => {
            let sacc = line_acc(s.out.take(sp.out_len), o.indent_width);
            &&& sp.indent == 0
            &&& sp.ignore == 0
            &&& !(prog[sp.pc as int] is Text)
            &&& forall|k: int|
                0 <= k < sacc.0.len() ==> line_ok(#[trigger] sacc.0[k], o.max_width)
            &&& line_ok(sacc.1, o.max_width)
            &&& (sp.pending ==> sacc.1 == (0u64, 0nat))
            &&& (!sp.pending ==> sacc.1.0 == sp.col)
        },
        None => true,
    }
}

proof fn lemma_step_width(
    prog: Seq<PNode>,
    o: GetWriteItemsOptions,
    hints: Seq<Option<InfoPos>>,
    s: SPass,
)
    requires
        prog_wf(prog),
        opts_valid(o),
        pass_inv(prog, s),
        s.pc < prog.len(),
        flat_prog(prog),
        width_inv(prog, o, s),
    ensures
        width_inv(prog, o, step(prog, o, hints, s)),
{
    let tab = o.indent_width;
    let s2 = step(prog, o, hints, s);
    let acc = line_acc(s.out, tab);
    assert(prog[s.pc as int] is Text || is_break_sig(prog[s.pc as int]));
    match prog[s.pc as int] {
        PNode::Text(txt) => {
            let s1 = content_start(s, tab);
            assert(s1.out == s.out);
            assert(!s1.pending && s1.col == if s.pending {
                0u64
            } else {
                s.col
            });
            let end = text_end(s1.col, txt, tab);
            if end > o.max_width as u64 && s.save is Some {
                let sp = s.save->Some_0;
                let sacc = line_acc(s.out.take(sp.out_len), tab);
                assert(s2 == do_restore(s));
                assert(s2.out == s.out.take(sp.out_len));
            } else {
                assert(s2.out == s1.out.push(WItem::Text(txt)));
                assert(s2.out.drop_last() =~= s.out);
                let acc2 = line_acc(s2.out, tab);
                assert(acc2.0 == acc.0);
                assert(acc2.1 == (text_end(acc.1.0, txt, tab), acc.1.1 + 1));
                assert(acc.1.0 == s1.col);
                if s.save is Some {
                    assert(end <= o.max_width as u64);
                    let sp = s.save->Some_0;
                    assert(s2.out.take(sp.out_len) =~= s.out.take(sp.out_len));
                } else {
                    assert(acc.1.1 == 0);
                }
                if s2.pc < prog.len() && prog[s2.pc as int] is Text {
                    assert(is_break_sig(prog[s2.pc as int - 1]));
                    assert(false);
                }
            }
        },
        PNode::Signal(g) => {
            match g {
                Signal::NewLine => {
                    assert(s2.out.drop_last() =~= s.out);
                    let acc2 = line_acc(s2.out, tab);
                    assert(acc2.0 == acc.0.push(acc.1));
                    assert forall|k: int| 0 <= k < acc2.0.len() implies line_ok(
                        #[trigger] acc2.0[k],
                        o.max_width,
                    ) by {
                        if k < acc.0.len() {
                            assert(line_ok(acc.0[k], o.max_width));
                        }
                    }
                },
                Signal::SpaceOrNewLine => {
                    if s.fired[s.pc as int] {
                        assert(s2.out.drop_last() =~= s.out);
                        let acc2 = line_acc(s2.out, tab);
                        assert(acc2.0 == acc.0.push(acc.1));
                        assert forall|k: int| 0 <= k < acc2.0.len() implies line_ok(
                            #[trigger] acc2.0[k],
                            o.max_width,
                        ) by {
                            if k < acc.0.len() {
                                assert(line_ok(acc.0[k], o.max_width));
                            }
                        }
                    } else {
                        let sx = SPass { save: Some(snap_of(s)), ..s };
                        let s1 = content_start(sx, tab);
                        assert(s1.out == s.out);
                        let end = sat_add64(s1.col, 1);
                        if end > o.max_width as u64 {
                            assert(s2 == do_restore(sx));
                            assert(snap_of(s).out_len == s.out.len() as int);
                            assert(s2.out == sx.out.take(s.out.len() as int));
                            assert(s.out.take(s.out.len() as int) =~= s.out);
                            assert(s2.out =~= s.out);
                        } else {
                            assert(s2.out == s1.out.push(WItem::Text(seq![' '])));
                            assert(s2.out.drop_last() =~= s.out);
                            let acc2 = line_acc(s2.out, tab);
                            assert(acc2.0 == acc.0);
                            assert(text_end(acc.1.0, seq![' '], tab) == char_adv(
                                acc.1.0,
                                ' ',
                                tab,
                            )) by {
                                let sp1 = seq![' '];
                                assert(sp1.len() == 1);
                                assert(sp1[0] == ' ');
                                assert(sp1.drop_first() =~= Seq::<char>::empty());
                                assert(text_end(acc.1.0, sp1, tab) == text_end(
                                    char_adv(acc.1.0, ' ', tab),
                                    Seq::<char>::empty(),
                                    tab,
                                ));
                                assert(text_end(char_adv(acc.1.0, ' ', tab), Seq::<char>::empty(), tab)
                                    == char_adv(acc.1.0, ' ', tab));
                            }
                            assert(acc2.1.0 == end);
                            assert(s2.save == Some(snap_of(s)));
                            assert(snap_of(s).out_len == s.out.len() as int);
                            assert(s2.out.take(snap_of(s).out_len) =~= s.out);
                            if s2.pc < prog.len() && prog[s2.pc as int] is Text {
                                assert(s2.save is Some);
                            }
                        }
                    }
                },
                Signal::PossibleNewLine => {
                    if s.fired[s.pc as int] {
                        assert(s2.out.drop_last() =~= s.out);
                        let acc2 = line_acc(s2.out, tab);
                        assert(acc2.0 == acc.0.push(acc.1));
                        assert forall|k: int| 0 <= k < acc2.0.len() implies line_ok(
                            #[trigger] acc2.0[k],
                            o.max_width,
                        ) by {
                            if k < acc.0.len() {
                                assert(line_ok(acc.0[k], o.max_width));
                            }
                        }
                    } else {
                        assert(s2.out == s.out);
                        assert(snap_of(s).out_len == s.out.len() as int);
                        assert(s2.out.take(snap_of(s).out_len) =~= s.out);
                    }
                },
                _ => {
                    assert(false);
                },
            }
        },
        _ => {
            assert(false);
        },
    }
}

proof fn lemma_run_width(
    prog: Seq<PNode>,
    o: GetWriteItemsOptions,
    hints: Seq<Option<InfoPos>>,
    s: SPass,
)
    requires
        prog_wf(prog),
        opts_valid(o),
        pass_inv(prog, s),
        flat_prog(prog),
        width_inv(prog, o, s),
    ensures
        width_inv(prog, o, run(prog, o, hints, s)),
    decreases s.fires_left, prog.len() - s.pc,
{
    if s.pc < prog.len() {
        lemma_step_ok(prog, o, hints, s);
        lemma_step_width(prog, o, hints, s);
        lemma_run_width(prog, o, hints, step(prog, o, hints, s));
    }
}

proof fn lemma_passes_width(
    prog: Seq<PNode>,
    o: GetWriteItemsOptions,
    hints: Seq<Option<InfoPos>>,
    n: usize,
    left: nat,
)
    requires
        prog_wf(prog),
        opts_valid(o),
        prog.len() <= usize::MAX,
        flat_prog(prog),
        run_passes(prog, o, hints, n, left) is Ok,
    ensures
        width_inv(prog, o, run_passes(prog, o, hints, n, left)->Ok_0),
    decreases left,
{
    let s0 = init_state(prog, n);
    lemma_init_inv(prog, n);
    lemma_run_width(prog, o, hints, s0);
    let s = run(prog, o, hints, s0);
    match unstable_from(prog, s, 0) {
        None => {},
        Some(_id) => {
            lemma_passes_width(prog, o, s.infos, n, (left - 1) as nat);
        },
    }
}

/// Width respect: for a flat word-wrap tree (text runs separated by break
/// opportunities, no indentation scopes or conditions), every line of a
/// successful print's output renders within `max_width` columns, except a
/// line holding a single text run that alone exceeds the width: unbreakable
/// content is never split.
pub proof fn lemma_width_respect(prog: Seq<PNode>, o: GetWriteItemsOptions)
    requires
        prog_wf(prog),
        prog.len() <= usize::MAX,
        flat_prog(prog),
        spec_get_write_items(prog, o) is Ok,
    ensures
        lines_ok(spec_get_write_items(prog, o)->Ok_0, o),
{
    assert(opts_valid(o));
    let n = needed_infos(prog) as usize;
    lemma_passes_width(prog, o, none_hints(n), n, max_passes(prog));
}

} // verus!
