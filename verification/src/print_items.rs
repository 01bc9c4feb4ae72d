use vstd::prelude::*;

verus! {

/// A layout instruction with no text of its own.
#[derive(Clone, Copy, Debug, PartialEq, Eq)]
pub enum Signal {
    /// An unconditional line break.
    NewLine,
    /// A space that becomes a line break when the line would otherwise
    /// overflow the configured maximum width.
    SpaceOrNewLine,
    /// A break opportunity with no visible output of its own: a break is
    /// taken here only when needed to respect the maximum width.
    PossibleNewLine,
    /// Demands that the following content start on a fresh line; does
    /// nothing when the printer is already at the start of a line.
    ExpectNewLine,
    /// A literal tab character; the column advances to the next multiple of
    /// the configured indent width.
    Tab,
    /// Opens an indentation scope: one level deeper from the next line on.
    StartIndent,
    /// Closes the innermost indentation scope.
    FinishIndent,
    /// From here on, line starts carry no indentation.
    StartIgnoringIndent,
    /// Ends the innermost ignoring-indent scope.
    FinishIgnoringIndent,
}

/// A built-in predicate deciding a condition from printer state.
///
/// A resolver answers true, false, or "not yet determinable": an info
/// position that the printer has not passed yet leaves the resolver
/// undecided, and the printer defers the decision to a later attempt.
#[derive(Clone, Copy, Debug, PartialEq, Eq)]
pub enum ConditionResolver {
    /// True once both referenced infos are resolved and sit on different
    /// lines; undecidable until both are resolved.
    IsMultipleLines(u32, u32),
    /// True when no content has been committed to the current line yet.
    /// Always decidable from the state at hand.
    IsStartOfLine,
}

/// One node of the print-item program. Branching is encoded positionally:
/// a `Condition` falls through into its true path and skips `else_delta`
/// nodes ahead to reach its false path; a `Jump` ends the true path by
/// skipping `delta` nodes ahead. All deltas point strictly forward.
pub enum PrintNode {
    Text(String),
    Signal(Signal),
    /// A positional marker: no output, but its line and column, once the
    /// printer passes it, become queryable by resolvers anywhere in the
    /// tree, including earlier (a forward reference).
    Info(u32),
    /// Condition id, its resolver, and the forward delta to its false path.
    Condition(u32, ConditionResolver, usize),
    Jump(usize),
}

/// The mathematical shape of a print node.
pub enum PNode {
    Text(Seq<char>),
    Signal(Signal),
    Info(u32),
    Condition(u32, ConditionResolver, usize),
    Jump(usize),
}

impl View for PrintNode {
    type V = PNode;

    open spec fn view(&self) -> PNode {
        match self {
            PrintNode::Text(s) => PNode::Text(s@),
            PrintNode::Signal(g) => PNode::Signal(*g),
            PrintNode::Info(i) => PNode::Info(*i),
            PrintNode::Condition(id, r, d) => PNode::Condition(*id, *r, *d),
            PrintNode::Jump(d) => PNode::Jump(*d),
        }
    }
}

/// Node `i` of the program is well formed: its forward delta, if it has
/// one, is at least one and stays within the program.
pub open spec fn node_wf(prog: Seq<PNode>, i: int) -> bool {
    match prog[i] {
        PNode::Condition(_id, _r, d) => 1 <= d && i + d <= prog.len(),
        PNode::Jump(d) => 1 <= d && i + d <= prog.len(),
        _ => true,
    }
}

/// Every node of the program is well formed. The printer's termination
/// rests on all deltas pointing strictly forward.
pub open spec fn prog_wf(prog: Seq<PNode>) -> bool {
    forall|i: int| 0 <= i < prog.len() ==> node_wf(prog, i)
}

/// The program that one `Condition` item contributes: the condition head,
/// the true path, and, when the false path is not empty, a jump over it.
pub open spec fn cond_seq(id: u32, r: ConditionResolver, t: Seq<PNode>, f: Seq<PNode>) -> Seq<
    PNode,
> {
    if f.len() == 0 {
        seq![PNode::Condition(id, r, (t.len() + 1) as usize)] + t
    } else {
        seq![PNode::Condition(id, r, (t.len() + 2) as usize)] + t + seq![
            PNode::Jump((f.len() + 1) as usize),
        ] + f
    }
}

/// An immutable tree of layout instructions, authored once through the
/// methods below and then printed any number of times. The construction
/// methods guarantee structural validity (every branch delta lands inside
/// the program), so a built value is always printable.
pub struct PrintItems {
    pub(crate) nodes: Vec<PrintNode>,
}

impl View for PrintItems {
    type V = Seq<PNode>;

    closed spec fn view(&self) -> Seq<PNode> {
        self.nodes@.map_values(|n: PrintNode| n@)
    }
}

proof fn lemma_map_push(v: Seq<PrintNode>, x: PrintNode)
    ensures
        (v.push(x)).map_values(|n: PrintNode| n@) == v.map_values(|n: PrintNode| n@).push(x@),
{
    let a = (v.push(x)).map_values(|n: PrintNode| n@);
    let b = v.map_values(|n: PrintNode| n@).push(x@);
    assert forall|i: int| 0 <= i < a.len() implies a[i] == b[i] by {
        if i < v.len() {
            assert(v.push(x)[i] == v[i]);
        }
    }
    assert(a =~= b);
}

/// Appending a well-formed program after a well-formed program keeps the
/// whole well formed: forward deltas are unaffected by what stands before
/// or after them.
proof fn lemma_concat_wf(a: Seq<PNode>, b: Seq<PNode>)
    requires
        prog_wf(a),
        prog_wf(b),
    ensures
        prog_wf(a + b),
{
    let c = a + b;
    assert forall|i: int| 0 <= i < c.len() implies node_wf(c, i) by {
        if i < a.len() {
            assert(c[i] == a[i]);
            assert(node_wf(a, i));
        } else {
            assert(c[i] == b[i - a.len()]);
            assert(node_wf(b, i - a.len()));
        }
    }
}

proof fn lemma_cond_seq_wf(id: u32, r: ConditionResolver, t: Seq<PNode>, f: Seq<PNode>)
    requires
        prog_wf(t),
        prog_wf(f),
        t.len() + f.len() + 2 <= usize::MAX,
    ensures
        prog_wf(cond_seq(id, r, t, f)),
{
    let c = cond_seq(id, r, t, f);
    if f.len() == 0 {
        assert forall|i: int| 0 <= i < c.len() implies node_wf(c, i) by {
            if i == 0 {
                assert(c[0] == PNode::Condition(id, r, (t.len() + 1) as usize));
            } else {
                assert(c[i] == t[i - 1]);
                assert(node_wf(t, i - 1));
            }
        }
    } else {
        let jpos = 1 + t.len() as int;
        assert forall|i: int| 0 <= i < c.len() implies node_wf(c, i) by {
            if i == 0 {
                assert(c[0] == PNode::Condition(id, r, (t.len() + 2) as usize));
            } else if i < jpos {
                assert(c[i] == t[i - 1]);
                assert(node_wf(t, i - 1));
            } else if i == jpos {
                assert(c[i] == PNode::Jump((f.len() + 1) as usize));
            } else {
                assert(c[i] == f[i - jpos - 1]);
                assert(node_wf(f, i - jpos - 1));
            }
        }
    }
}

impl PrintItems {
    /// Every built value is a well-formed program; the construction methods
    /// maintain this at all times.
    #[verifier::type_invariant]
    pub open spec fn type_wf(self) -> bool {
        prog_wf(self@)
    }

    /// An empty tree.
    pub fn new() -> (r: Self)
        ensures
            r@ == Seq::<PNode>::empty(),
    {
        let r = PrintItems { nodes: Vec::new() };
        proof {
            assert(r@ =~= Seq::<PNode>::empty());
        }
        r
    }

    fn push_node(&mut self, n: PrintNode)
        requires
            node_wf(old(self)@.push(n@), old(self)@.len() as int),
        ensures
            final(self)@ == old(self)@.push(n@),
    {
        proof {
            use_type_invariant(&*self);
        }
        let mut nodes: Vec<PrintNode> = Vec::new();
        std::mem::swap(&mut nodes, &mut self.nodes);
        let ghost base = nodes@.map_values(|m: PrintNode| m@);
        nodes.push(n);
        proof {
            lemma_map_push(old(self).nodes@, n);
            let v = nodes@.map_values(|m: PrintNode| m@);
            assert(v == base.push(n@));
            assert forall|i: int| 0 <= i < v.len() implies node_wf(v, i) by {
                if i < base.len() {
                    assert(v[i] == base[i]);
                    assert(node_wf(base, i));
                }
            }
        }
        self.nodes = nodes;
    }

    /// Literal content, printed as-is. Embedded tabs widen the rendered
    /// column count to the next multiple of the configured indent width.
    pub fn text(&mut self, s: String)
        ensures
            final(self)@ == old(self)@.push(PNode::Text(s@)),
    {
        self.push_node(PrintNode::Text(s));
    }

    /// One layout signal.
    pub fn signal(&mut self, g: Signal)
        ensures
            final(self)@ == old(self)@.push(PNode::Signal(g)),
    {
        self.push_node(PrintNode::Signal(g));
    }

    /// A positional marker under the given identifier. Identifiers are
    /// chosen at construction time and must be unique within one tree.
    pub fn info(&mut self, id: u32)
        ensures
            final(self)@ == old(self)@.push(PNode::Info(id)),
    {
        self.push_node(PrintNode::Info(id));
    }

    /// A condition under the given identifier: when the resolver commits to
    /// true, the true path is printed, otherwise the false path. Either
    /// path may be empty.
    pub fn condition(
        &mut self,
        id: u32,
        resolver: ConditionResolver,
        true_path: PrintItems,
        false_path: PrintItems,
    )
        requires
            old(self)@.len() + true_path@.len() + false_path@.len() + 2 <= usize::MAX,
        ensures
            final(self)@ == old(self)@ + cond_seq(id, resolver, true_path@, false_path@),
    {
        proof {
            use_type_invariant(&*self);
            use_type_invariant(&true_path);
            use_type_invariant(&false_path);
        }
        let mut nodes: Vec<PrintNode> = Vec::new();
        std::mem::swap(&mut nodes, &mut self.nodes);
        let ghost base = nodes@.map_values(|m: PrintNode| m@);
        let tlen = true_path.nodes.len();
        let flen = false_path.nodes.len();
        proof {
            assert(true_path@.len() == tlen);
            assert(false_path@.len() == flen);
        }
        let else_delta: usize = if flen == 0 {
            tlen + 1
        } else {
            tlen + 2
        };
        nodes.push(PrintNode::Condition(id, resolver, else_delta));
        proof {
            lemma_map_push(old(self).nodes@, PrintNode::Condition(id, resolver, else_delta));
        }
        let ghost head = PNode::Condition(id, resolver, else_delta);
        let mut i: usize = 0;
        while i < tlen
            invariant
                i <= tlen,
                tlen == true_path.nodes.len(),
                tlen == true_path@.len(),
                nodes@.map_values(|m: PrintNode| m@) == base.push(head) + true_path@.take(i as int),
            decreases tlen - i,
        {
            let n = clone_node(&true_path.nodes[i]);
            nodes.push(n);
            proof {
                lemma_map_push(nodes@.subrange(0, nodes@.len() - 1), nodes@[nodes@.len() - 1]);
                assert(nodes@.subrange(0, nodes@.len() - 1).map_values(|m: PrintNode| m@)
                    == base.push(head) + true_path@.take(i as int)) by {
                    let pre = nodes@.subrange(0, nodes@.len() - 1);
                    let full = nodes@;
                    assert forall|k: int| 0 <= k < pre.len() implies pre.map_values(
                        |m: PrintNode| m@,
                    )[k] == (base.push(head) + true_path@.take(i as int))[k] by {
                        assert(pre[k] == full[k]);
                    }
                    assert(pre.map_values(|m: PrintNode| m@) =~= base.push(head)
                        + true_path@.take(i as int));
                }
                assert(n@ == true_path.nodes@[i as int]@);
                assert(true_path@[i as int] == true_path.nodes@[i as int]@);
                assert(nodes@.map_values(|m: PrintNode| m@) =~= base.push(head)
                    + true_path@.take(i as int + 1)) by {
                    assert(true_path@.take(i as int + 1) =~= true_path@.take(i as int).push(
                        true_path@[i as int],
                    ));
                }
            }
            i += 1;
        }
        proof {
            assert(true_path@.take(tlen as int) =~= true_path@);
        }
        if flen > 0 {
            let jd: usize = flen + 1;
            nodes.push(PrintNode::Jump(jd));
            proof {
                lemma_map_push(nodes@.subrange(0, nodes@.len() - 1), nodes@[nodes@.len() - 1]);
                let pre = nodes@.subrange(0, nodes@.len() - 1);
                assert forall|k: int| 0 <= k < pre.len() implies pre.map_values(
                    |m: PrintNode| m@,
                )[k] == (base.push(head) + true_path@)[k] by {
                    assert(pre[k] == nodes@[k]);
                }
                assert(pre.map_values(|m: PrintNode| m@) =~= base.push(head) + true_path@);
            }
            let ghost jnode = PNode::Jump(jd);
            let mut j: usize = 0;
            while j < flen
                invariant
                    j <= flen,
                    flen == false_path.nodes.len(),
                    flen == false_path@.len(),
                    nodes@.map_values(|m: PrintNode| m@) == base.push(head) + true_path@ + seq![
                        jnode,
                    ] + false_path@.take(j as int),
                decreases flen - j,
            {
                let n = clone_node(&false_path.nodes[j]);
                nodes.push(n);
                proof {
                    lemma_map_push(nodes@.subrange(0, nodes@.len() - 1), nodes@[nodes@.len() - 1]);
                    let pre = nodes@.subrange(0, nodes@.len() - 1);
                    assert forall|k: int| 0 <= k < pre.len() implies pre.map_values(
                        |m: PrintNode| m@,
                    )[k] == (base.push(head) + true_path@ + seq![jnode] + false_path@.take(
                        j as int,
                    ))[k] by {
                        assert(pre[k] == nodes@[k]);
                    }
                    assert(pre.map_values(|m: PrintNode| m@) =~= base.push(head) + true_path@
                        + seq![jnode] + false_path@.take(j as int));
                    assert(n@ == false_path@[j as int]);
                    assert(nodes@.map_values(|m: PrintNode| m@) =~= base.push(head) + true_path@
                        + seq![jnode] + false_path@.take(j as int + 1)) by {
                        assert(false_path@.take(j as int + 1) =~= false_path@.take(j as int).push(
                            false_path@[j as int],
                        ));
                    }
                }
                j += 1;
            }
            proof {
                assert(false_path@.take(flen as int) =~= false_path@);
            }
        }
        proof {
            let v = nodes@.map_values(|m: PrintNode| m@);
            assert(v =~= base + cond_seq(id, resolver, true_path@, false_path@)) by {
                if flen == 0 {
                    assert(base.push(head) + true_path@ =~= base + (seq![head] + true_path@));
                } else {
                    assert(base.push(head) + true_path@ + seq![PNode::Jump((flen + 1) as usize)]
                        + false_path@ =~= base + (seq![head] + true_path@ + seq![
                        PNode::Jump((flen + 1) as usize),
                    ] + false_path@));
                }
            }
            lemma_cond_seq_wf(id, resolver, true_path@, false_path@);
            lemma_concat_wf(base, cond_seq(id, resolver, true_path@, false_path@));
        }
        self.nodes = nodes;
    }
}

/// The view of a built tree is exactly the viewed node sequence.
pub(crate) proof fn lemma_items_view(x: &PrintItems)
    ensures
        x@ == x.nodes@.map_values(|n: PrintNode| n@),
{
}

fn clone_node(n: &PrintNode) -> (r: PrintNode)
    ensures
        r@ == n@,
{
    match n {
        PrintNode::Text(s) => PrintNode::Text(s.clone()),
        PrintNode::Signal(g) => PrintNode::Signal(*g),
        PrintNode::Info(i) => PrintNode::Info(*i),
        PrintNode::Condition(id, r, d) => PrintNode::Condition(*id, *r, *d),
        PrintNode::Jump(d) => PrintNode::Jump(*d),
    }
}

} // verus!
