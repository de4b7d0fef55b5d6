use super::memory::{Memory, MemoryLevel};
use crate::frontend::ast::{spec_decimal, text_of, usize_text, LiquidTypeValue, Type, TypeV, TypeValue};
use vstd::prelude::*;

verus! {

/// Bits in a byte.
pub const BITS_PER_BYTE: usize = 8;

/// A hardware element capable of storage.
pub enum Cell {
    Memory(Memory),
    /// `Cell::Register(bit_width)` is a register `bit_width` bits wide.
    Register(usize),
}

/// The mathematical value of a [`Cell`]: a memory's levels and word width,
/// or a register's width.
pub enum CellV {
    Memory(Seq<MemoryLevel>, usize),
    Register(usize),
}

impl View for Cell {
    type V = CellV;

    open spec fn view(&self) -> CellV {
        match *self {
            Cell::Memory(m) => CellV::Memory(m.spec_levels(), m.spec_element()),
            Cell::Register(w) => CellV::Register(w),
        }
    }
}

impl Cell {
    /// A copy of this cell.
    pub fn duplicate(&self) -> (result: Self)
        ensures
            result@ == self@,
    {
        match self {
            Cell::Memory(m) => Cell::Memory(m.duplicate()),
            Cell::Register(w) => Cell::Register(*w),
        }
    }

    /// The width of the port through which the cell is read or written: the
    /// word width of a memory, the width of a register.
    pub fn port_width(&self) -> (result: usize)
        ensures
            result == match self@ {
                CellV::Memory(_, e) => e,
                CellV::Register(w) => w,
            },
    {
        match self {
            Cell::Memory(m) => m.element(),
            Cell::Register(w) => *w,
        }
    }
}

/// Whether a value of type `t` can be stored in a cell: the unit, an
/// integer, or an array of known size of such values.
pub open spec fn cellable(t: TypeV) -> bool
    decreases t,
{
    match t {
        TypeV::Unit => true,
        TypeV::Int64 => true,
        TypeV::Array(element, count) => count is Equal && cellable(*element),
        _ => false,
    }
}

/// The cell that stores a value of type `t`: a register of no bits for the
/// unit, of 64 bits for an integer, and for an array a memory whose first
/// level has the array's length and one bank, followed by the levels of the
/// element's cell, with the element's word width.
pub open spec fn spec_cell(t: TypeV) -> CellV
    decreases t,
{
    match t {
        TypeV::Int64 => CellV::Register(64),
        TypeV::Array(element, count) => {
            let length = match count {
                LiquidTypeValue::Equal(n) => n,
                LiquidTypeValue::All(_) => 0,
            };
            let first = MemoryLevel { length, bank: 1 };
            match spec_cell(*element) {
                CellV::Memory(levels, word) => CellV::Memory(seq![first] + levels, word),
                CellV::Register(word) => CellV::Memory(seq![first], word),
            }
        },
        _ => CellV::Register(0),
    }
}

impl Cell {
    /// The cell that stores a value of type `ty` (see [`spec_cell`]).
    pub fn from(ty: &Type) -> (result: Self)
        requires
            cellable(ty@),
        ensures
            result@ == spec_cell(ty@),
        decreases *ty,
    {
        match &ty.value {
            TypeValue::Int64 => Cell::Register(64),
            TypeValue::Array(element_type, element_count) => {
                let length = match element_count.value {
                    LiquidTypeValue::Equal(n) => n,
                    LiquidTypeValue::All(_) => 0,
                };
                let mut levels: Vec<MemoryLevel> = Vec::new();
                levels.push(MemoryLevel { length, bank: 1 });
                let element = match Cell::from(element_type) {
                    Cell::Memory(sub_memory) => {
                        let sub_levels = sub_memory.levels();
                        let ghost first = levels@;
                        let mut k: usize = 0;
                        while k < sub_levels.len()
                            invariant
                                0 <= k <= sub_levels@.len(),
                                levels@ == first + sub_levels@.subrange(0, k as int),
                            decreases sub_levels@.len() - k,
                        {
                            levels.push(sub_levels[k]);
                            assert(levels@ =~= first + sub_levels@.subrange(0, k + 1));
                            k = k + 1;
                        }
                        assert(sub_levels@.subrange(0, sub_levels@.len() as int) =~= sub_levels@);
                        sub_memory.element()
                    },
                    Cell::Register(element) => element,
                };
                Cell::Memory(Memory::from(levels, element))
            },
            _ => Cell::Register(0),
        }
    }
}


/// How a memory level is displayed: its length and bank in brackets.
pub open spec fn spec_level_text(level: MemoryLevel) -> Seq<char> {
    seq!['['] + spec_decimal(level.length as nat) + seq![' ', 'b', 'a', 'n', 'k', ' ']
        + spec_decimal(level.bank as nat) + seq![']']
}

/// The texts of memory levels, one after another.
pub open spec fn spec_levels_text(levels: Seq<MemoryLevel>) -> Seq<char>
    decreases levels.len(),
{
    if levels.len() == 0 {
        Seq::empty()
    } else {
        spec_levels_text(levels.drop_last()) + spec_level_text(levels.last())
    }
}

/// How a register `width` bits wide is displayed: its bit range, then `()`.
pub open spec fn spec_register_text(width: usize) -> Seq<char> {
    seq!['[', '0', ':'] + spec_decimal((width - 1) as nat) + seq![']', '(', ')']
}

/// How a cell is displayed: a memory's levels followed by its word as a
/// register, or a register.
pub open spec fn spec_cell_text(c: CellV) -> Seq<char> {
    match c {
        CellV::Memory(levels, word) => spec_levels_text(levels) + spec_register_text(word),
        CellV::Register(width) => spec_register_text(width),
    }
}

/// The text of a register `width` bits wide (see [`spec_register_text`]).
fn register_text(width: usize) -> (result: String)
    requires
        width > 0,
    ensures
        result@ == spec_register_text(width),
{
    let open = "[0:";
    let close = "]()";
    proof {
        reveal_strlit("[0:");
        reveal_strlit("]()");
        assert(open@ =~= seq!['[', '0', ':']);
        assert(close@ =~= seq![']', '(', ')']);
    }
    let mut result = text_of(open);
    let high = usize_text(width - 1);
    result.append(high.as_str());
    result.append(close);
    result
}

impl Cell {
    /// How the cell is displayed (see [`spec_cell_text`]); the width of its
    /// port must not be zero.
    pub fn to_text(&self) -> (result: String)
        requires
            self.port_width_spec() > 0,
        ensures
            result@ == spec_cell_text(self@),
    {
        match self {
            Cell::Memory(memory) => {
                let levels = memory.levels();
                let open = "[";
                let bank = " bank ";
                let close = "]";
                proof {
                    reveal_strlit("[");
                    reveal_strlit(" bank ");
                    reveal_strlit("]");
                    assert(open@ =~= seq!['[']);
                    assert(bank@ =~= seq![' ', 'b', 'a', 'n', 'k', ' ']);
                    assert(close@ =~= seq![']']);
                    assert(levels@.subrange(0, 0) =~= Seq::<MemoryLevel>::empty());
                }
                let mut result = String::new();
                let n = levels.len();
                let mut i: usize = 0;
                while i < n
                    invariant
                        0 <= i <= n,
                        n == levels@.len(),
                        open@ == seq!['['],
                        bank@ == seq![' ', 'b', 'a', 'n', 'k', ' '],
                        close@ == seq![']'],
                        result@ == spec_levels_text(levels@.subrange(0, i as int)),
                    decreases n - i,
                {
                    let level = levels[i];
                    result.append(open);
                    let length = usize_text(level.length);
                    result.append(length.as_str());
                    result.append(bank);
                    let number = usize_text(level.bank);
                    result.append(number.as_str());
                    result.append(close);
                    proof {
                        let pre = levels@.subrange(0, i + 1);
                        assert(pre.drop_last() =~= levels@.subrange(0, i as int));
                        assert(pre.last() == level);
                        assert(result@ =~= spec_levels_text(pre));
                    }
                    i = i + 1;
                }
                proof {
                    assert(levels@.subrange(0, n as int) =~= levels@);
                }
                let word = register_text(memory.element());
                result.append(word.as_str());
                result
            },
            Cell::Register(width) => register_text(*width),
        }
    }

    /// The width of the port through which the cell is read or written.
    pub open spec fn port_width_spec(&self) -> usize {
        match self@ {
            CellV::Memory(_, e) => e,
            CellV::Register(w) => w,
        }
    }
}

} // verus!
