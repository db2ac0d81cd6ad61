//! The rendering of a unit as text, one line for each block header and each
//! instruction.

use crate::data::{
    Block, InstData, InstKind, Instruction, SignaturePart, TermData, Type, Unit, UnitView,
    BLOCK_MAX,
};
use crate::util::KeyVec;
use vstd::prelude::*;
use vstd::string::StringExecFns;

verus! {

/// The text of one decimal digit.
pub open spec fn digit(d: nat) -> Seq<char> {
    if d == 0 {
        "0"@
    } else if d == 1 {
        "1"@
    } else if d == 2 {
        "2"@
    } else if d == 3 {
        "3"@
    } else if d == 4 {
        "4"@
    } else if d == 5 {
        "5"@
    } else if d == 6 {
        "6"@
    } else if d == 7 {
        "7"@
    } else if d == 8 {
        "8"@
    } else {
        "9"@
    }
}

/// The text of a number in decimal digits.
pub open spec fn decimal(n: nat) -> Seq<char>
    decreases n,
{
    if n < 10 {
        digit(n)
    } else {
        decimal(n / 10) + digit(n % 10)
    }
}

/// The text of a number with its sign.
pub open spec fn signed(n: int) -> Seq<char> {
    if n < 0 {
        "-"@ + decimal((-n) as nat)
    } else {
        decimal(n as nat)
    }
}

/// The text of a type.
pub open spec fn type_text(t: Type) -> Seq<char> {
    match t {
        Type::Int32 => "Int32"@,
        Type::Void => "Void"@,
    }
}

/// The text of the first `upto` of the types, separated by commas.
pub open spec fn type_items(types: Seq<Type>, upto: int) -> Seq<char>
    decreases upto,
{
    if upto <= 0 {
        Seq::empty()
    } else if upto == 1 {
        type_text(types[0])
    } else {
        type_items(types, upto - 1) + ", "@ + type_text(types[upto - 1])
    }
}

/// The text of a list of types in brackets.
pub open spec fn type_list(types: Seq<Type>) -> Seq<char> {
    "["@ + type_items(types, types.len() as int) + "]"@
}

/// The text of an instruction handle.
pub open spec fn handle(i: Instruction) -> Seq<char> {
    "@"@ + decimal(i.0 as nat)
}

/// The text of the first `upto` of the handles, separated by commas.
pub open spec fn handle_items(handles: Seq<Instruction>, upto: int) -> Seq<char>
    decreases upto,
{
    if upto <= 0 {
        Seq::empty()
    } else if upto == 1 {
        handle(handles[0])
    } else {
        handle_items(handles, upto - 1) + ", "@ + handle(handles[upto - 1])
    }
}

/// The text of a list of handles in brackets.
pub open spec fn handle_list(handles: Seq<Instruction>) -> Seq<char> {
    "["@ + handle_items(handles, handles.len() as int) + "]"@
}

impl TermData {
    /// The text of a terminator.
    pub open spec fn text(self, data: Seq<Instruction>) -> Seq<char> {
        match self {
            TermData::DoIf(c) => ": if "@ + handle(c),
            TermData::Branch(t, s, e) => if t.0 == BLOCK_MAX {
                ": ret "@ + handle_list(data.subrange(s.0 as int, e.0 as int))
            } else {
                ": br b"@ + decimal(t.0 as nat) + " "@ + handle_list(
                    data.subrange(s.0 as int, e.0 as int),
                )
            },
        }
    }
}

impl InstKind {
    /// The text of an instruction.
    pub open spec fn text(self, data: Seq<Instruction>) -> Seq<char> {
        match self {
            InstKind::Terminator(t) => t.text(data),
            InstKind::Tombstone => "= _"@,
            InstKind::FetchArg(i) => "= fetchArg ["@ + decimal(i as nat) + "]"@,
            InstKind::IConst(i) => "= const "@ + signed(i as int),
            InstKind::Add(a, b) => "= add "@ + handle(a) + ", "@ + handle(b),
            InstKind::Sub(a, b) => "= sub "@ + handle(a) + ", "@ + handle(b),
            InstKind::Less(a, b) => "= less "@ + handle(a) + ", "@ + handle(b),
            InstKind::More(a, b) => "= more "@ + handle(a) + ", "@ + handle(b),
            InstKind::Recur(s, e) => "= recur "@ + handle_list(
                data.subrange(s.0 as int, e.0 as int),
            ),
        }
    }
}

impl UnitView {
    /// The line of instruction `i`.
    pub open spec fn line(self, i: int) -> Seq<char> {
        "|\t"@ + handle(Instruction(i as u32)) + " "@ + self.instructions[i].kind.text(self.data)
            + "\n"@
    }

    /// The lines of the instructions in `[from, to)`.
    pub open spec fn lines(self, from: int, to: int) -> Seq<char>
        decreases to - from,
    {
        if from >= to {
            Seq::empty()
        } else {
            self.lines(from, to - 1) + self.line(to - 1)
        }
    }

    /// The header of block `b`: its name and the types of its parameters.
    pub open spec fn header(self, b: int) -> Seq<char> {
        "---b"@ + decimal(b as nat) + type_list(
            self.signatures.subrange(
                self.blocks[b].sig_start.0 as int,
                self.blocks[b].sig_end.0 as int,
            ),
        ) + ":\n"@
    }

    /// The text of the first `upto` blocks: for each its header and the lines
    /// of its instructions.
    pub open spec fn sections(self, upto: int) -> Seq<char>
        decreases upto,
    {
        if upto <= 0 {
            Seq::empty()
        } else {
            self.sections(upto - 1) + self.header(upto - 1) + self.lines(
                self.blocks[upto - 1].start.0 as int,
                self.blocks[upto - 1].end.0 as int,
            )
        }
    }

    /// The line of the return type, where one is declared.
    pub open spec fn footer(self) -> Seq<char> {
        match self.retsig {
            Some(t) => "---return("@ + type_text(t) + ")\n"@,
            None => Seq::empty(),
        }
    }

    /// The text of the unit: its blocks in their order, and the return type.
    pub open spec fn text(self) -> Seq<char> {
        self.sections(self.blocks.len() as int) + self.footer()
    }
}

/// Appends the text of one decimal digit.
fn push_digit(out: &mut String, d: u8)
    requires
        d < 10,
    ensures
        final(out)@ == old(out)@ + digit(d as nat),
{
    if d == 0 {
        out.append("0");
    } else if d == 1 {
        out.append("1");
    } else if d == 2 {
        out.append("2");
    } else if d == 3 {
        out.append("3");
    } else if d == 4 {
        out.append("4");
    } else if d == 5 {
        out.append("5");
    } else if d == 6 {
        out.append("6");
    } else if d == 7 {
        out.append("7");
    } else if d == 8 {
        out.append("8");
    } else {
        out.append("9");
    }
}

/// Appends the text of a number in decimal digits.
fn push_decimal(out: &mut String, n: u128)
    ensures
        final(out)@ == old(out)@ + decimal(n as nat),
    decreases n,
{
    if n >= 10 {
        push_decimal(out, n / 10);
    }
    push_digit(out, (n % 10) as u8);
    proof {
        if n >= 10 {
            assert(final(out)@ == old(out)@ + (decimal((n / 10) as nat) + digit((n % 10) as nat)));
        }
    }
}

/// Appends the text of a number with its sign.
fn push_signed(out: &mut String, n: isize)
    ensures
        final(out)@ == old(out)@ + signed(n as int),
{
    if n < 0 {
        out.append("-");
        let wide: i128 = n as i128;
        push_decimal(out, (-wide) as u128);
        proof {
            assert(final(out)@ == old(out)@ + ("-"@ + decimal((-n) as nat)));
        }
    } else {
        push_decimal(out, n as u128);
    }
}

/// Appends the text of a type.
fn push_type(out: &mut String, t: Type)
    ensures
        final(out)@ == old(out)@ + type_text(t),
{
    match t {
        Type::Int32 => out.append("Int32"),
        Type::Void => out.append("Void"),
    }
}

/// Appends the text of an instruction handle.
fn push_handle(out: &mut String, i: Instruction)
    ensures
        final(out)@ == old(out)@ + handle(i),
{
    out.append("@");
    push_decimal(out, i.0 as u128);
    proof {
        assert(final(out)@ == old(out)@ + ("@"@ + decimal(i.0 as nat)));
    }
}

/// Appends the text of a list of handles in brackets.
fn push_handle_list(out: &mut String, handles: &Vec<Instruction>)
    ensures
        final(out)@ == old(out)@ + handle_list(handles@),
{
    out.append("[");
    let mut k: usize = 0;
    while k < handles.len()
        invariant
            k <= handles@.len(),
            out@ == old(out)@ + "["@ + handle_items(handles@, k as int),
        decreases handles@.len() - k,
    {
        if k > 0 {
            out.append(", ");
        }
        push_handle(out, handles[k]);
        proof {
            if k > 0 {
                assert(out@ == old(out)@ + "["@ + (handle_items(handles@, k as int) + ", "@
                    + handle(handles@[k as int])));
            } else {
                assert(handle_items(handles@, 0) == Seq::<char>::empty());
                assert(out@ == old(out)@ + "["@ + handle(handles@[0]));
            }
        }
        k += 1;
    }
    out.append("]");
    proof {
        assert(out@ == old(out)@ + ("["@ + handle_items(handles@, handles@.len() as int) + "]"@));
    }
}

/// Appends the text of a run of types in brackets.
fn push_type_list(
    out: &mut String,
    signatures: &KeyVec<SignaturePart, Type>,
    start: SignaturePart,
    end: SignaturePart,
)
    requires
        start.0 <= end.0 <= signatures@.len(),
    ensures
        final(out)@ == old(out)@ + type_list(signatures@.subrange(start.0 as int, end.0 as int)),
{
    let ghost types = signatures@.subrange(start.0 as int, end.0 as int);
    out.append("[");
    let mut k: u32 = start.0;
    while k < end.0
        invariant
            start.0 <= k <= end.0 <= signatures@.len(),
            types == signatures@.subrange(start.0 as int, end.0 as int),
            out@ == old(out)@ + "["@ + type_items(types, k - start.0),
        decreases end.0 - k,
    {
        if k > start.0 {
            out.append(", ");
        }
        push_type(out, *signatures.index(SignaturePart(k)));
        proof {
            let at = k - start.0;
            assert(types[at] == signatures@[k as int]);
            if at > 0 {
                assert(out@ == old(out)@ + "["@ + (type_items(types, at) + ", "@ + type_text(
                    types[at],
                )));
            } else {
                assert(type_items(types, 0) == Seq::<char>::empty());
                assert(out@ == old(out)@ + "["@ + type_text(types[0]));
            }
        }
        k += 1;
    }
    out.append("]");
    proof {
        assert(out@ == old(out)@ + ("["@ + type_items(types, types.len() as int) + "]"@));
    }
}

impl TermData {
    /// The text of the terminator: `: if` with the condition, `: ret` with
    /// the values returned, or `: br` with the target and the arguments.
    pub fn human_format(&self, unit: &Unit) -> (text: String)
        requires
            InstKind::Terminator(*self).run_within(unit@.data.len()),
        ensures
            text@ == self.text(unit@.data),
    {
        let mut out = String::new();
        match self {
            TermData::DoIf(c) => {
                out.append(": if ");
                push_handle(&mut out, *c);
            },
            TermData::Branch(t, s, e) => {
                let args = InstKind::Terminator(*self).get_insts(&unit.data);
                if t.0 == BLOCK_MAX {
                    out.append(": ret ");
                    push_handle_list(&mut out, &args);
                } else {
                    out.append(": br b");
                    push_decimal(&mut out, t.0 as u128);
                    out.append(" ");
                    push_handle_list(&mut out, &args);
                }
            },
        }
        out
    }
}

impl InstKind {
    /// The text of the instruction: a terminator as `TermData::human_format`
    /// gives it, any other after `= `, a tombstone as `_`.
    pub fn human_format(&self, unit: &Unit) -> (text: String)
        requires
            self.run_within(unit@.data.len()),
        ensures
            text@ == self.text(unit@.data),
    {
        let mut out = String::new();
        match self {
            InstKind::Terminator(t) => {
                return t.human_format(unit);
            },
            InstKind::Tombstone => {
                out.append("= _");
            },
            InstKind::FetchArg(i) => {
                out.append("= fetchArg [");
                push_decimal(&mut out, *i as u128);
                out.append("]");
            },
            InstKind::IConst(i) => {
                out.append("= const ");
                push_signed(&mut out, *i);
            },
            InstKind::Add(a, b) => {
                out.append("= add ");
                push_handle(&mut out, *a);
                out.append(", ");
                push_handle(&mut out, *b);
            },
            InstKind::Sub(a, b) => {
                out.append("= sub ");
                push_handle(&mut out, *a);
                out.append(", ");
                push_handle(&mut out, *b);
            },
            InstKind::Less(a, b) => {
                out.append("= less ");
                push_handle(&mut out, *a);
                out.append(", ");
                push_handle(&mut out, *b);
            },
            InstKind::More(a, b) => {
                out.append("= more ");
                push_handle(&mut out, *a);
                out.append(", ");
                push_handle(&mut out, *b);
            },
            InstKind::Recur(s, e) => {
                let args = self.get_insts(&unit.data);
                out.append("= recur ");
                push_handle_list(&mut out, &args);
            },
        }
        out
    }
}

impl InstData {
    /// The text of the instruction.
    pub fn human_format(&self, unit: &Unit) -> (text: String)
        requires
            self.kind.run_within(unit@.data.len()),
        ensures
            text@ == self.kind.text(unit@.data),
    {
        self.kind.human_format(unit)
    }
}

impl Unit {
    /// The text of the unit: for each block in the order of the handles a
    /// header with its name and parameter types and a line for each of its
    /// instructions, and at the end the return type where one is declared.
    pub fn human_format(&self) -> (text: String)
        requires
            self.wf(),
        ensures
            text@ == self@.text(),
    {
        let ghost u = self@;
        let mut out = String::new();
        let n = self.blocks.len();
        let mut b: usize = 0;
        while b < n
            invariant
                self.wf(),
                u == self@,
                n == u.blocks.len(),
                b <= n,
                out@ == u.sections(b as int),
            decreases n - b,
        {
            let block = *self.blocks.index(Block(b as u32));
            proof {
                assert(u.block_ok(b as int));
            }
            let ghost before = out@;
            out.append("---b");
            push_decimal(&mut out, b as u128);
            push_type_list(&mut out, &self.signatures, block.sig_start, block.sig_end);
            out.append(":\n");
            proof {
                assert(out@ == before + u.header(b as int));
            }
            let ghost headed = out@;
            let mut i: u32 = block.start.0;
            while i < block.end.0
                invariant
                    self.wf(),
                    u == self@,
                    block.start.0 <= i <= block.end.0 <= u.instructions.len(),
                    out@ == headed + u.lines(block.start.0 as int, i as int),
                decreases block.end.0 - i,
            {
                proof {
                    assert(u.inst_ok(i as int));
                }
                let ghost sofar = out@;
                let text = self.instructions.index(Instruction(i)).human_format(self);
                out.append("|\t");
                push_handle(&mut out, Instruction(i));
                out.append(" ");
                out.append(text.as_str());
                out.append("\n");
                proof {
                    assert(out@ == sofar + u.line(i as int));
                    assert(u.lines(block.start.0 as int, i + 1) == u.lines(
                        block.start.0 as int,
                        i as int,
                    ) + u.line(i as int));
                }
                i += 1;
            }
            proof {
                assert(out@ == before + u.header(b as int) + u.lines(
                    block.start.0 as int,
                    block.end.0 as int,
                ));
            }
            b += 1;
        }
        match self.retsig {
            Some(t) => {
                let ghost body = out@;
                out.append("---return(");
                push_type(&mut out, t);
                out.append(")\n");
                proof {
                    assert(out@ == body + u.footer());
                }
            },
            None => {
                proof {
                    assert(out@ == out@ + u.footer());
                }
            },
        }
        out
    }
}

} // verus!
