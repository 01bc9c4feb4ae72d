use vstd::prelude::*;
use crate::write_items::{WItem, WriteItem, witems_view};

verus! {

/// The newline sequence the writer emits for each committed line break.
#[derive(Clone, Copy, Debug, PartialEq, Eq)]
pub enum NewlineKind {
    LineFeed,
    CarriageReturnLineFeed,
}

/// Configuration for serializing write items into final text.
#[derive(Clone, Copy, Debug, PartialEq, Eq)]
pub struct PrintWriteItemsOptions {
    /// Spaces per indent level, when indenting with spaces.
    pub indent_width: u32,
    /// Indent with one tab character per level instead of spaces.
    pub use_tabs: bool,
    pub newline_kind: NewlineKind,
}

pub open spec fn nl_seq(k: NewlineKind) -> Seq<char> {
    match k {
        NewlineKind::LineFeed => seq!['\n'],
        NewlineKind::CarriageReturnLineFeed => seq!['\r', '\n'],
    }
}

pub open spec fn repeat_char(c: char, n: nat) -> Seq<char> {
    Seq::new(n, |i: int| c)
}

pub open spec fn indent_chars(d: u32, o: PrintWriteItemsOptions) -> Seq<char> {
    if o.use_tabs {
        repeat_char('\t', d as nat)
    } else {
        repeat_char(' ', (d as nat) * (o.indent_width as nat))
    }
}

/// What one write item contributes to the final text. Text runs are
/// written verbatim; every choice was already made by the printer.
pub open spec fn render_item(w: WItem, o: PrintWriteItemsOptions) -> Seq<char> {
    match w {
        WItem::Text(s) => s,
        WItem::NewLine => nl_seq(o.newline_kind),
        WItem::Tab => seq!['\t'],
        WItem::Indent(d) => indent_chars(d, o),
    }
}

/// The final text: the write items' contributions, concatenated in order.
/// The writer carries no state from one call to the next.
pub open spec fn render(ws: Seq<WItem>, o: PrintWriteItemsOptions) -> Seq<char>
    decreases ws.len(),
{
    if ws.len() == 0 {
        Seq::<char>::empty()
    } else {
        render(ws.drop_last(), o) + render_item(ws.last(), o)
    }
}

/// Relies on String::push: appends exactly the one character.
#[verifier::external_body]
fn push_char(dst: &mut String, c: char)
    ensures
        final(dst)@ == old(dst)@.push(c),
{
    dst.push(c);
}

/// Relies on String::push_str: appends exactly the given characters.
#[verifier::external_body]
fn push_str(dst: &mut String, s: &str)
    ensures
        final(dst)@ == old(dst)@ + s@,
{
    dst.push_str(s);
}

fn push_repeat(dst: &mut String, c: char, n: u64)
    ensures
        final(dst)@ == old(dst)@ + repeat_char(c, n as nat),
{
    let mut i: u64 = 0;
    while i < n
        invariant
            i <= n,
            dst@ == old(dst)@ + repeat_char(c, i as nat),
        decreases n - i,
    {
        push_char(dst, c);
        proof {
            assert(old(dst)@ + repeat_char(c, i as nat + 1) =~= (old(dst)@ + repeat_char(
                c,
                i as nat,
            )).push(c));
        }
        i += 1;
    }
    proof {
        assert(dst@ =~= old(dst)@ + repeat_char(c, n as nat));
    }
}

/// Serializes the write items into the final text, exactly as the `render`
/// model says: newline style and indentation characters applied uniformly,
/// nothing else decided here.
pub fn print_write_items(items: &Vec<WriteItem>, o: PrintWriteItemsOptions) -> (r: String)
    ensures
        r@ == render(witems_view(items@), o),
{
    let mut out = String::new();
    let mut i: usize = 0;
    while i < items.len()
        invariant
            i <= items.len(),
            out@ == render(witems_view(items@).take(i as int), o),
        decreases items.len() - i,
    {
        let ghost pre = out@;
        let ghost wsv = witems_view(items@);
        proof {
            assert(wsv[i as int] == items@[i as int]@);
        }
        match &items[i] {
            WriteItem::Text(s) => {
                push_str(&mut out, s.as_str());
            },
            WriteItem::NewLine => {
                match o.newline_kind {
                    NewlineKind::LineFeed => {
                        push_char(&mut out, '\n');
                        proof {
                            assert(out@ =~= pre + nl_seq(o.newline_kind));
                        }
                    },
                    NewlineKind::CarriageReturnLineFeed => {
                        push_char(&mut out, '\r');
                        push_char(&mut out, '\n');
                        proof {
                            assert(out@ =~= pre + nl_seq(o.newline_kind));
                        }
                    },
                }
            },
            WriteItem::Tab => {
                push_char(&mut out, '\t');
                proof {
                    assert(out@ =~= pre + seq!['\t']);
                }
            },
            WriteItem::Indent(d) => {
                let d = *d;
                if o.use_tabs {
                    push_repeat(&mut out, '\t', d as u64);
                } else {
                    proof {
                        assert((d as int) * (o.indent_width as int) <= 0xffff_ffffu64
                            * 0xffff_ffffu64) by (nonlinear_arith)
                            requires
                                0 <= d as int <= 0xffff_ffffu64,
                                0 <= o.indent_width as int <= 0xffff_ffffu64,
                        ;
                    }
                    let cnt: u64 = (d as u64) * (o.indent_width as u64);
                    push_repeat(&mut out, ' ', cnt);
                    proof {
                        assert(repeat_char(' ', cnt as nat) =~= indent_chars(d, o));
                    }
                }
            },
        }
        proof {
            assert(out@ == pre + render_item(wsv[i as int], o));
            assert(wsv.take(i as int + 1).drop_last() =~= wsv.take(i as int));
            assert(wsv.take(i as int + 1).last() == wsv[i as int]);
            assert(out@ == render(wsv.take(i as int + 1), o));
        }
        i += 1;
    }
    proof {
        assert(witems_view(items@).take(items@.len() as int) =~= witems_view(items@));
    }
    out
}

/// The writer has no hidden state carried across calls: text fed back
/// through it as one plain literal run, with no conditions left, comes out
/// unchanged.
pub proof fn lemma_writer_replay(s: Seq<char>, o: PrintWriteItemsOptions)
    ensures
        render(seq![WItem::Text(s)], o) == s,
{
    let ws = seq![WItem::Text(s)];
    assert(ws.len() == 1);
    assert(ws.last() == WItem::Text(s));
    assert(ws.drop_last() =~= Seq::<WItem>::empty());
    assert(render(Seq::<WItem>::empty(), o) == Seq::<char>::empty());
    assert(render(ws, o) == Seq::<char>::empty() + s);
    assert(Seq::<char>::empty() + s =~= s);
}


/// The absolute position reached after the given text: a line feed starts
/// the next line, a tab advances to the next multiple of the tab size, any
/// other character is one column wide.
pub open spec fn pos_after(line: u64, col: u64, cs: Seq<char>, tab: u32) -> (u64, u64)
    decreases cs.len(),
{
    if cs.len() == 0 {
        (line, col)
    } else {
        let c = cs[0];
        if c == '\n' {
            pos_after(crate::printer::sat_add64(line, 1), 0, cs.drop_first(), tab)
        } else {
            pos_after(line, crate::printer::char_adv(col, c, tab), cs.drop_first(), tab)
        }
    }
}

proof fn lemma_pos_after_snoc(line: u64, col: u64, cs: Seq<char>, c: char, tab: u32)
    ensures
        pos_after(line, col, cs.push(c), tab) == (if c == '\n' {
            (crate::printer::sat_add64(pos_after(line, col, cs, tab).0, 1), 0u64)
        } else {
            (
                pos_after(line, col, cs, tab).0,
                crate::printer::char_adv(pos_after(line, col, cs, tab).1, c, tab),
            )
        }),
    decreases cs.len(),
{
    if cs.len() == 0 {
        assert(cs.push(c)[0] == c);
        assert(cs.push(c).drop_first() =~= Seq::<char>::empty());
        assert(pos_after(line, col, cs, tab) == (line, col));
        if c == '\n' {
            assert(pos_after(line, col, cs.push(c), tab) == pos_after(
                crate::printer::sat_add64(line, 1),
                0,
                Seq::<char>::empty(),
                tab,
            ));
            assert(pos_after(crate::printer::sat_add64(line, 1), 0, Seq::<char>::empty(), tab) == (
                crate::printer::sat_add64(line, 1),
                0u64,
            ));
        } else {
            assert(pos_after(line, col, cs.push(c), tab) == pos_after(
                line,
                crate::printer::char_adv(col, c, tab),
                Seq::<char>::empty(),
                tab,
            ));
            assert(pos_after(line, crate::printer::char_adv(col, c, tab), Seq::<char>::empty(), tab)
                == (line, crate::printer::char_adv(col, c, tab)));
        }
    } else {
        assert(cs.push(c)[0] == cs[0]);
        assert(cs.push(c).drop_first() =~= cs.drop_first().push(c));
        if cs[0] == '\n' {
            lemma_pos_after_snoc(crate::printer::sat_add64(line, 1), 0, cs.drop_first(), c, tab);
        } else {
            lemma_pos_after_snoc(
                line,
                crate::printer::char_adv(col, cs[0], tab),
                cs.drop_first(),
                c,
                tab,
            );
        }
    }
}

/// Reports the final line and column the rendered text reaches, for
/// callers that format several fragments and track cumulative position.
/// Lines and columns start at zero; the tab size is the indent width.
pub fn rendered_end_position(s: &String, tab: u32) -> (r: (u64, u64))
    requires
        tab >= 1,
    ensures
        r == pos_after(0, 0, s@, tab),
{
    let cs = crate::printer::chars_vec(s.as_str());
    let mut line: u64 = 0;
    let mut col: u64 = 0;
    let mut i: usize = 0;
    while i < cs.len()
        invariant
            tab >= 1,
            i <= cs.len(),
            cs@ == s@,
            (line, col) == pos_after(0, 0, cs@.take(i as int), tab),
        decreases cs.len() - i,
    {
        let c = cs[i];
        proof {
            lemma_pos_after_snoc(0, 0, cs@.take(i as int), cs@[i as int], tab);
            assert(cs@.take(i as int + 1) =~= cs@.take(i as int).push(cs@[i as int]));
        }
        if c == '\n' {
            line = if line <= u64::MAX - 1 {
                line + 1
            } else {
                u64::MAX
            };
            col = 0;
        } else if c == '\t' {
            let t64: u64 = tab as u64;
            let m: u64 = col % t64;
            let add: u64 = t64 - m;
            col = if col <= u64::MAX - add {
                col + add
            } else {
                u64::MAX
            };
        } else {
            col = if col <= u64::MAX - 1 {
                col + 1
            } else {
                u64::MAX
            };
        }
        i += 1;
    }
    proof {
        assert(cs@.take(cs@.len() as int) =~= cs@);
    }
    (line, col)
}

} // verus!
