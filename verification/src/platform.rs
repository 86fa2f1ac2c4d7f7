//! What the platform tells the kernel about its memory before any allocator
//! runs: the boot reservation table, and the ranges of memory that the
//! device tree names.
pub mod boot_reserve;
pub mod periphmap;

use vstd::prelude::*;
use vstd::slice::slice_subrange;
use vstd::utf8::encode_utf8;
use crate::device_tree::util::{
    bytes_eq, in_buffer, read_be_u32, read_be_u64, spec_be_u32, spec_be_u64,
};
use crate::device_tree::{
    parse_tree, spec_find_root, spec_text, DeviceTree, Node, TreeView, MAGIC_NUMBER,
};
use crate::align::{
    lemma_rounddown, lemma_roundup, roundup_page_size, spec_rounddown, spec_roundup,
};
use crate::defines::PAGE_SIZE;
use crate::errors::ErrNO;
use crate::klib::list::{without_range, List};
use crate::page::vm_page_t;
use crate::platform::boot_reserve::BootReserveRange;
use crate::pmm::{has_chunk, pmm_alloc_range, run_seq, PmmNode};
use crate::types::paddr_t;
use crate::vm_page_state;

verus! {

/// A device tree names no more ranges of memory than this.
pub const MAX_ZBI_MEM_RANGES: usize = 32;

/// How many cells of four bytes an address has where the root node does
/// not say.
pub const OF_ROOT_NODE_ADDR_CELLS_DEFAULT: u32 = 1;

/// How many cells of four bytes a size has where the root node does not
/// say.
pub const OF_ROOT_NODE_SIZE_CELLS_DEFAULT: u32 = 1;

/// Where the total size of a device tree stands in its header.
pub const FDT_TOTALSIZE_OFFSET: usize = 4;

/// What a range of physical memory is.
#[derive(Clone, Copy, Debug, PartialEq, Eq, Structural)]
pub enum ZBIMemRangeType {
    /// Memory for the page-frame allocator.
    RAM,
    /// Registers of devices.
    PERIPHERAL,
    /// Memory that must not be handed out.
    RESERVED,
}

/// A range of physical memory `[paddr, paddr + length)`.
#[derive(Clone, Copy, Debug, PartialEq, Eq, Structural)]
pub struct ZBIMemRange {
    pub mtype: ZBIMemRangeType,
    pub paddr: paddr_t,
    pub length: usize,
    pub reserved: u32,
}

impl ZBIMemRange {
    /// The range `[paddr, paddr + length)` of the type `mtype`.
    pub fn new(mtype: ZBIMemRangeType, paddr: paddr_t, length: usize) -> (r: ZBIMemRange)
        ensures
            r == (ZBIMemRange { mtype, paddr, length, reserved: 0 }),
    {
        ZBIMemRange { mtype, paddr, length, reserved: 0 }
    }
}

/// What `early_init_dt_verify` says of the memory `dtb`.
pub open spec fn dt_verify_error(dtb: Seq<u8>) -> Option<ErrNO> {
    if dtb.len() == 0 {
        Some(ErrNO::NoDTB)
    } else if !in_buffer(dtb, 0, 4) || spec_be_u32(dtb, 0) != MAGIC_NUMBER {
        Some(ErrNO::BadDTB)
    } else {
        None
    }
}

/// Checks that the memory `dtb` that was passed to the kernel starts
/// like a device tree.
pub fn early_init_dt_verify(dtb: &[u8]) -> (r: Result<(), ErrNO>)
    ensures
        r == (match dt_verify_error(dtb@) {
            Some(e) => Err::<(), ErrNO>(e),
            None => Ok::<(), ErrNO>(()),
        }),
{
    if dtb.len() == 0 {
        // No device tree was passed to the kernel.
        return Err(ErrNO::NoDTB);
    }
    // Check the validity of the device tree.
    match read_be_u32(dtb, 0) {
        Err(_) => Err(ErrNO::BadDTB),
        Ok(magic) => {
            if magic != MAGIC_NUMBER {
                Err(ErrNO::BadDTB)
            } else {
                Ok(())
            }
        },
    }
}

/// The bytes of the device tree at the start of the memory `dtb`: as
/// many as its header says, where the memory has them.
pub open spec fn dt_bytes(dtb: Seq<u8>) -> Option<Seq<u8>> {
    if in_buffer(dtb, 4, 4) && spec_be_u32(dtb, 4) <= dtb.len() {
        Some(dtb.subrange(0, spec_be_u32(dtb, 4)))
    } else {
        None
    }
}

/// Reads the device tree at the start of the memory `dtb`, which has as
/// many bytes as its header says.
pub fn early_init_dt_load(dtb: &[u8]) -> (r: Result<DeviceTree, ErrNO>)
    ensures
        match r {
            Ok(tree) => dt_verify_error(dtb@) is None && dt_bytes(dtb@) is Some && parse_tree(
                dt_bytes(dtb@)->Some_0,
            ) == Ok::<TreeView, crate::device_tree::DeviceTreeError>(tree@),
            Err(e) => if dt_verify_error(dtb@) is Some {
                e == dt_verify_error(dtb@)->Some_0
            } else {
                e == ErrNO::BadDTB && (dt_bytes(dtb@) is None || parse_tree(
                    dt_bytes(dtb@)->Some_0,
                ) is Err)
            },
        },
{
    match early_init_dt_verify(dtb) {
        Err(e) => {
            return Err(e);
        },
        Ok(_) => {},
    }
    let totalsize = match read_be_u32(dtb, FDT_TOTALSIZE_OFFSET) {
        Err(_) => {
            return Err(ErrNO::BadDTB);
        },
        Ok(totalsize) => totalsize as usize,
    };
    if totalsize > dtb.len() {
        return Err(ErrNO::BadDTB);
    }
    let buf = slice_subrange(dtb, 0, totalsize);
    match DeviceTree::load(buf) {
        Err(_) => Err(ErrNO::BadDTB),
        Ok(tree) => Ok(tree),
    }
}

/// The number of cells that the property `name` of `node` gives;
/// `default` where the node has no such number.
pub open spec fn spec_cells(node: Node, name: Seq<char>, default: u32) -> u32 {
    match node.spec_prop(name) {
        None => default,
        Some(v) => if in_buffer(v, 0, 4) {
            spec_be_u32(v, 0) as u32
        } else {
            default
        },
    }
}

/// Fetches the numbers of cells of an address and of a size from the
/// root node; each is the default where the root node does not give it.
pub fn early_init_dt_scan_root(dt: &DeviceTree) -> (r: (u32, u32))
    ensures
        r == root_cells(dt.root),
{
    let root = match dt.find("/") {
        Some(node) => node,
        None => {
            return (OF_ROOT_NODE_ADDR_CELLS_DEFAULT, OF_ROOT_NODE_SIZE_CELLS_DEFAULT);
        },
    };
    let addr_cells = match root.prop_u32("#address-cells") {
        Ok(cells) => cells,
        Err(_) => OF_ROOT_NODE_ADDR_CELLS_DEFAULT,
    };
    let size_cells = match root.prop_u32("#size-cells") {
        Ok(cells) => cells,
        Err(_) => OF_ROOT_NODE_SIZE_CELLS_DEFAULT,
    };
    (addr_cells, size_cells)
}

/// The number that `cells` cells at position `pos` of `v` hold: eight
/// bytes where there are two cells, else four. Nothing where `v` ends
/// before them, or the number is no address of this machine.
pub open spec fn spec_read_cells(v: Seq<u8>, pos: int, cells: u32) -> Option<usize> {
    if cells == 2 {
        if in_buffer(v, pos, 8) && spec_be_u64(v, pos) <= usize::MAX {
            Some(spec_be_u64(v, pos) as usize)
        } else {
            None
        }
    } else {
        if in_buffer(v, pos, 4) {
            Some(spec_be_u32(v, pos) as usize)
        } else {
            None
        }
    }
}

/// The ranges that the value `v` of a property `reg` names from
/// position `pos` on: each an address of `addr_cells` cells and a size
/// of `size_cells` cells, those of size zero left out. The value is
/// refused where it ends inside a range, and where no range has a byte.
pub open spec fn reg_ranges(v: Seq<u8>, pos: int, addr_cells: u32, size_cells: u32) -> Result<
    Seq<(usize, usize)>,
    ErrNO,
>
    decreases v.len() - pos,
{
    if pos < 0 || pos >= v.len() {
        Ok(Seq::empty())
    } else if addr_cells == 0 && size_cells == 0 {
        Err(ErrNO::BadDTB)
    } else if spec_read_cells(v, pos, addr_cells) is None || spec_read_cells(
        v,
        pos + addr_cells * 4,
        size_cells,
    ) is None {
        Err(ErrNO::BadDTB)
    } else {
        let base = spec_read_cells(v, pos, addr_cells)->Some_0;
        let size = spec_read_cells(v, pos + addr_cells * 4, size_cells)->Some_0;
        let next = pos + addr_cells * 4 + size_cells * 4;
        let more = if next >= v.len() {
            Ok(Seq::empty())
        } else {
            reg_ranges(v, next, addr_cells, size_cells)
        };
        match more {
            Err(e) => Err(e),
            Ok(rest) => if size == 0 {
                Ok(rest)
            } else {
                Ok(seq![(base, size)] + rest)
            },
        }
    }
}

/// The value of the property `reg` of `node`; empty where it has none.
pub open spec fn node_reg(node: Node) -> Seq<u8> {
    match node.spec_prop("reg"@) {
        None => Seq::empty(),
        Some(v) => v,
    }
}

/// The ranges `acc` before those that `more` gives.
pub open spec fn ranges_after(acc: Seq<(usize, usize)>, more: Result<Seq<(usize, usize)>, ErrNO>)
    -> Result<Seq<(usize, usize)>, ErrNO> {
    match more {
        Err(e) => Err(e),
        Ok(rest) => Ok(acc + rest),
    }
}

/// Reads `cells` cells at position `pos` of `v`.
fn read_cells(v: &[u8], pos: usize, cells: u32) -> (r: Option<usize>)
    ensures
        r == spec_read_cells(v@, pos as int, cells),
{
    if cells == 2 {
        match read_be_u64(v, pos) {
            Err(_) => None,
            Ok(value) => {
                if value > usize::MAX as u64 {
                    None
                } else {
                    Some(value as usize)
                }
            },
        }
    } else {
        match read_be_u32(v, pos) {
            Err(_) => None,
            Ok(value) => Some(value as usize),
        }
    }
}

/// The position `step` cells of four bytes behind position `pos`; the
/// length `len` where that is behind it.
fn advance(pos: usize, cells: u32, len: usize) -> (r: usize)
    requires
        pos <= len,
    ensures
        r == (if pos + cells * 4 <= len {
            pos + cells * 4
        } else {
            len as int
        }),
{
    let step: u64 = (cells as u64) * 4;
    if step > (len - pos) as u64 {
        len
    } else {
        pos + step as usize
    }
}

/// Reads the ranges that the property `reg` of `node` names: each an
/// address of `addr_cells` cells and a size of `size_cells` cells, those
/// of size zero left out.
pub fn parse_reg(node: &Node, addr_cells: u32, size_cells: u32) -> (r: Result<
    Vec<(usize, usize)>,
    ErrNO,
>)
    ensures
        match r {
            Ok(ranges) => reg_ranges(node_reg(*node), 0, addr_cells, size_cells) == Ok::<
                Seq<(usize, usize)>,
                ErrNO,
            >(ranges@),
            Err(e) => reg_ranges(node_reg(*node), 0, addr_cells, size_cells) == Err::<
                Seq<(usize, usize)>,
                ErrNO,
            >(e),
        },
{
    let mut ranges: Vec<(usize, usize)> = Vec::new();
    let reg = match node.prop_raw("reg") {
        None => {
            return Ok(ranges);
        },
        Some(reg) => reg.as_slice(),
    };
    let ghost v = reg@;
    let reg_len = reg.len();
    let mut pos: usize = 0;
    proof {
        assert(Seq::<(usize, usize)>::empty() + Seq::<(usize, usize)>::empty() =~= Seq::<
            (usize, usize),
        >::empty());
        lemma_ranges_after_none(reg_ranges(v, 0, addr_cells, size_cells));
    }
    while pos < reg_len
        invariant
            v == reg@,
            v == node_reg(*node),
            reg_len == v.len(),
            pos <= reg_len,
            reg_ranges(v, 0, addr_cells, size_cells) == ranges_after(
                ranges@,
                reg_ranges(v, pos as int, addr_cells, size_cells),
            ),
        decreases reg_len - pos,
    {
        if addr_cells == 0 && size_cells == 0 {
            return Err(ErrNO::BadDTB);
        }
        let base = match read_cells(reg, pos, addr_cells) {
            None => {
                return Err(ErrNO::BadDTB);
            },
            Some(base) => base,
        };
        let behind_base = advance(pos, addr_cells, reg_len);
        let size = match read_cells(reg, behind_base, size_cells) {
            None => {
                return Err(ErrNO::BadDTB);
            },
            Some(size) => size,
        };
        let next = advance(behind_base, size_cells, reg_len);
        proof {
            let following = pos + addr_cells * 4 + size_cells * 4;
            assert(reg_ranges(v, following, addr_cells, size_cells) == reg_ranges(
                v,
                next as int,
                addr_cells,
                size_cells,
            ));
            lemma_ranges_after_one(
                ranges@,
                (base, size),
                reg_ranges(v, next as int, addr_cells, size_cells),
            );
        }
        if size != 0 {
            ranges.push((base, size));
        }
        pos = next;
    }
    proof {
        assert(ranges@ + Seq::<(usize, usize)>::empty() =~= ranges@);
    }
    Ok(ranges)
}

/// Nothing before what `more` gives is what `more` gives.
proof fn lemma_ranges_after_none(more: Result<Seq<(usize, usize)>, ErrNO>)
    ensures
        ranges_after(Seq::empty(), more) == more,
{
    if more is Ok {
        assert(Seq::<(usize, usize)>::empty() + more->Ok_0 =~= more->Ok_0);
    }
}

/// Ranges before a range before others are all before the others.
proof fn lemma_ranges_after_one(
    acc: Seq<(usize, usize)>,
    one: (usize, usize),
    more: Result<Seq<(usize, usize)>, ErrNO>,
)
    ensures
        ranges_after(acc, ranges_after(seq![one], more)) == ranges_after(acc.push(one), more),
        ranges_after(acc, ranges_after(Seq::empty(), more)) == ranges_after(acc, more),
{
    if more is Ok {
        assert(acc + (seq![one] + more->Ok_0) =~= acc.push(one) + more->Ok_0);
        assert(Seq::<(usize, usize)>::empty() + more->Ok_0 =~= more->Ok_0);
    }
}

/// The value of the property `device_type` of a node of memory: the
/// word "memory" and a zero byte.
pub open spec fn memory_type() -> Seq<u8> {
    seq![0x6d, 0x65, 0x6d, 0x6f, 0x72, 0x79, 0]
}

/// The node describes memory.
pub open spec fn is_memory_node(node: Node) -> bool {
    node.spec_prop("device_type"@) == Some(memory_type())
}

/// The ranges `ranges` as ranges of the type `mtype`.
pub open spec fn typed_ranges(ranges: Seq<(usize, usize)>, mtype: ZBIMemRangeType) -> Seq<
    ZBIMemRange,
> {
    Seq::new(
        ranges.len(),
        |i: int| ZBIMemRange { mtype, paddr: ranges[i].0, length: ranges[i].1, reserved: 0 },
    )
}

/// The ranges of the type `mtype` that the nodes from position `i` on
/// name with their properties `reg`; only the nodes that describe
/// memory count where `only_memory` is set.
pub open spec fn nodes_ranges(
    nodes: Seq<Node>,
    i: int,
    addr_cells: u32,
    size_cells: u32,
    only_memory: bool,
    mtype: ZBIMemRangeType,
) -> Result<Seq<ZBIMemRange>, ErrNO>
    decreases nodes.len() - i,
{
    if i < 0 || i >= nodes.len() {
        Ok(Seq::empty())
    } else if only_memory && !is_memory_node(nodes[i]) {
        nodes_ranges(nodes, i + 1, addr_cells, size_cells, only_memory, mtype)
    } else {
        match reg_ranges(node_reg(nodes[i]), 0, addr_cells, size_cells) {
            Err(e) => Err(e),
            Ok(ranges) => match nodes_ranges(
                nodes,
                i + 1,
                addr_cells,
                size_cells,
                only_memory,
                mtype,
            ) {
                Err(e) => Err(e),
                Ok(rest) => Ok(typed_ranges(ranges, mtype) + rest),
            },
        }
    }
}

/// The ranges `acc` before those that `more` gives.
pub open spec fn config_after(acc: Seq<ZBIMemRange>, more: Result<Seq<ZBIMemRange>, ErrNO>)
    -> Result<Seq<ZBIMemRange>, ErrNO> {
    match more {
        Err(e) => Err(e),
        Ok(rest) => Ok(acc + rest),
    }
}

/// Adds the range `[base, base + size)` of memory to `config`.
pub fn add_memory_arch(config: &mut Vec<ZBIMemRange>, base: usize, size: usize)
    ensures
        final(config)@ == old(config)@.push(
            ZBIMemRange { mtype: ZBIMemRangeType::RAM, paddr: base, length: size, reserved: 0 },
        ),
{
    config.push(ZBIMemRange::new(ZBIMemRangeType::RAM, base, size));
}

/// Adds the reserved range `[base, base + size)` to `config`.
pub fn add_reserved_memory_arch(config: &mut Vec<ZBIMemRange>, base: usize, size: usize)
    ensures
        final(config)@ == old(config)@.push(
            ZBIMemRange {
                mtype: ZBIMemRangeType::RESERVED,
                paddr: base,
                length: size,
                reserved: 0,
            },
        ),
{
    config.push(ZBIMemRange::new(ZBIMemRangeType::RESERVED, base, size));
}

/// Adds the range of the registers of the devices of this architecture
/// to `config`: the first gigabyte.
pub fn init_mem_config_arch(config: &mut Vec<ZBIMemRange>)
    ensures
        final(config)@ == old(config)@.push(
            ZBIMemRange {
                mtype: ZBIMemRangeType::PERIPHERAL,
                paddr: 0,
                length: 0x40000000,
                reserved: 0,
            },
        ),
{
    config.push(ZBIMemRange::new(ZBIMemRangeType::PERIPHERAL, 0, 0x40000000));
}

/// Tells whether the node describes memory.
fn node_is_memory(node: &Node) -> (r: bool)
    ensures
        r == is_memory_node(*node),
{
    let wanted: [u8; 7] = [0x6d, 0x65, 0x6d, 0x6f, 0x72, 0x79, 0];
    match node.prop_raw("device_type") {
        None => false,
        Some(raw) => {
            assert(wanted@ =~= memory_type());
            bytes_eq(raw.as_slice(), wanted.as_slice())
        },
    }
}

/// Adds the ranges that the nodes `nodes` name with their properties
/// `reg` to `config`, as ranges of the type `mtype`; only the nodes that
/// describe memory count where `only_memory` is set. Nothing is added
/// where the property of one of the nodes is refused.
fn scan_nodes(
    nodes: &Vec<Node>,
    addr_cells: u32,
    size_cells: u32,
    only_memory: bool,
    mtype: ZBIMemRangeType,
    config: &mut Vec<ZBIMemRange>,
) -> (r: Result<(), ErrNO>)
    ensures
        match r {
            Ok(_) => nodes_ranges(nodes@, 0, addr_cells, size_cells, only_memory, mtype) is Ok
                && final(config)@ == old(config)@ + nodes_ranges(
                nodes@,
                0,
                addr_cells,
                size_cells,
                only_memory,
                mtype,
            )->Ok_0,
            Err(e) => nodes_ranges(nodes@, 0, addr_cells, size_cells, only_memory, mtype) == Err::<
                Seq<ZBIMemRange>,
                ErrNO,
            >(e) && final(config)@ == old(config)@,
        },
{
    let mut found: Vec<ZBIMemRange> = Vec::new();
    let mut i: usize = 0;
    proof {
        lemma_config_after_none(
            nodes_ranges(nodes@, 0, addr_cells, size_cells, only_memory, mtype),
        );
    }
    while i < nodes.len()
        invariant
            i <= nodes@.len(),
            config@ == old(config)@,
            nodes_ranges(nodes@, 0, addr_cells, size_cells, only_memory, mtype) == config_after(
                found@,
                nodes_ranges(nodes@, i as int, addr_cells, size_cells, only_memory, mtype),
            ),
        decreases nodes@.len() - i,
    {
        let node = &nodes[i];
        // We are scanning nodes of memory only.
        if only_memory && !node_is_memory(node) {
            i += 1;
            continue ;
        }
        let ranges = match parse_reg(node, addr_cells, size_cells) {
            Err(e) => {
                return Err(e);
            },
            Ok(ranges) => ranges,
        };
        let ghost before = found@;
        let mut k: usize = 0;
        while k < ranges.len()
            invariant
                k <= ranges@.len(),
                found@ == before + typed_ranges(ranges@, mtype).subrange(0, k as int),
            decreases ranges@.len() - k,
        {
            let (base, size) = ranges[k];
            found.push(ZBIMemRange::new(mtype, base, size));
            proof {
                let typed = typed_ranges(ranges@, mtype);
                assert(typed.subrange(0, k as int).push(typed[k as int]) =~= typed.subrange(
                    0,
                    k + 1,
                ));
            }
            k += 1;
        }
        proof {
            let typed = typed_ranges(ranges@, mtype);
            assert(typed.subrange(0, ranges@.len() as int) =~= typed);
            lemma_config_after_more(
                before,
                typed,
                nodes_ranges(nodes@, i + 1, addr_cells, size_cells, only_memory, mtype),
            );
        }
        i += 1;
    }
    proof {
        assert(found@ + Seq::<ZBIMemRange>::empty() =~= found@);
    }
    config.append(&mut found);
    Ok(())
}

/// Nothing before what `more` gives is what `more` gives.
proof fn lemma_config_after_none(more: Result<Seq<ZBIMemRange>, ErrNO>)
    ensures
        config_after(Seq::empty(), more) == more,
{
    if more is Ok {
        assert(Seq::<ZBIMemRange>::empty() + more->Ok_0 =~= more->Ok_0);
    }
}

/// Ranges before ranges before others are all before the others.
proof fn lemma_config_after_more(
    acc: Seq<ZBIMemRange>,
    next: Seq<ZBIMemRange>,
    more: Result<Seq<ZBIMemRange>, ErrNO>,
)
    ensures
        config_after(acc, config_after(next, more)) == config_after(acc + next, more),
{
    if more is Ok {
        assert(acc + (next + more->Ok_0) =~= (acc + next) + more->Ok_0);
    }
}

/// What scanning the device tree for reserved memory gives: the ranges
/// that the nodes below the node `/reserved-memory` name, which must be
/// there.
pub open spec fn reserved_ranges(root: Node, addr_cells: u32, size_cells: u32) -> Result<
    Seq<ZBIMemRange>,
    ErrNO,
> {
    match spec_find_root(root, encode_utf8("/reserved-memory"@)) {
        None => Err(ErrNO::BadDTB),
        Some(regions) => nodes_ranges(
            regions.children@,
            0,
            addr_cells,
            size_cells,
            false,
            ZBIMemRangeType::RESERVED,
        ),
    }
}

/// Adds the reserved ranges that the device tree names to `config`: those
/// of the nodes below the node `/reserved-memory`, which must be there.
pub fn early_scan_reserved_mem(
    dt: &DeviceTree,
    config: &mut Vec<ZBIMemRange>,
    addr_cells: u32,
    size_cells: u32,
) -> (r: Result<(), ErrNO>)
    ensures
        match r {
            Ok(_) => reserved_ranges(dt.root, addr_cells, size_cells) is Ok && final(config)@ == old(
                config,
            )@ + reserved_ranges(dt.root, addr_cells, size_cells)->Ok_0,
            Err(e) => reserved_ranges(dt.root, addr_cells, size_cells) == Err::<
                Seq<ZBIMemRange>,
                ErrNO,
            >(e) && final(config)@ == old(config)@,
        },
{
    let regions = match dt.find("/reserved-memory") {
        None => {
            return Err(ErrNO::BadDTB);
        },
        Some(regions) => regions,
    };
    scan_nodes(&regions.children, addr_cells, size_cells, false, ZBIMemRangeType::RESERVED, config)
}

/// What scanning the device tree for memory gives: the ranges of memory
/// that the nodes of memory below the root node name, and behind them
/// the reserved ranges.
pub open spec fn memory_ranges(root: Node, addr_cells: u32, size_cells: u32) -> Result<
    Seq<ZBIMemRange>,
    ErrNO,
> {
    match spec_find_root(root, encode_utf8("/"@)) {
        None => Err(ErrNO::BadDTB),
        Some(top) => match nodes_ranges(
            top.children@,
            0,
            addr_cells,
            size_cells,
            true,
            ZBIMemRangeType::RAM,
        ) {
            Err(e) => Err(e),
            Ok(ram) => match reserved_ranges(root, addr_cells, size_cells) {
                Err(e) => Err(e),
                Ok(reserved) => Ok(ram + reserved),
            },
        },
    }
}

/// Looks for the nodes of memory in the device tree and reads the ranges
/// they name, and then the reserved ranges.
pub fn early_init_dt_scan_memory(dt: &DeviceTree, addr_cells: u32, size_cells: u32) -> (r: Result<
    Vec<ZBIMemRange>,
    ErrNO,
>)
    ensures
        match r {
            Ok(config) => memory_ranges(dt.root, addr_cells, size_cells) == Ok::<
                Seq<ZBIMemRange>,
                ErrNO,
            >(config@),
            Err(e) => memory_ranges(dt.root, addr_cells, size_cells) == Err::<
                Seq<ZBIMemRange>,
                ErrNO,
            >(e),
        },
{
    let root = match dt.find("/") {
        None => {
            return Err(ErrNO::BadDTB);
        },
        Some(root) => root,
    };
    let mut mem_config: Vec<ZBIMemRange> = Vec::with_capacity(MAX_ZBI_MEM_RANGES);
    match scan_nodes(
        &root.children,
        addr_cells,
        size_cells,
        true,
        ZBIMemRangeType::RAM,
        &mut mem_config,
    ) {
        Err(e) => {
            return Err(e);
        },
        Ok(_) => {},
    }
    proof {
        assert(Seq::<ZBIMemRange>::empty() + mem_config@ =~= mem_config@);
    }
    match early_scan_reserved_mem(dt, &mut mem_config, addr_cells, size_cells) {
        Err(e) => {
            return Err(e);
        },
        Ok(_) => {},
    }
    Ok(mem_config)
}

/// Reads the memory that the device tree describes: the ranges of
/// memory and the reserved ranges, each address and size with as many
/// cells as the root node says.
pub fn early_init_dt_scan(dt: &DeviceTree) -> (r: Result<Vec<ZBIMemRange>, ErrNO>)
    ensures
        match r {
            Ok(config) => memory_ranges(dt.root, root_cells(dt.root).0, root_cells(dt.root).1)
                == Ok::<Seq<ZBIMemRange>, ErrNO>(config@),
            Err(e) => memory_ranges(dt.root, root_cells(dt.root).0, root_cells(dt.root).1)
                == Err::<Seq<ZBIMemRange>, ErrNO>(e),
        },
{
    // The numbers of cells of an address and of a size.
    let (addr_cells, size_cells) = early_init_dt_scan_root(dt);
    early_init_dt_scan_memory(dt, addr_cells, size_cells)
}

/// The numbers of cells of an address and of a size that the device
/// tree with the root node `root` gives.
pub open spec fn root_cells(root: Node) -> (u32, u32) {
    match spec_find_root(root, encode_utf8("/"@)) {
        None => (OF_ROOT_NODE_ADDR_CELLS_DEFAULT, OF_ROOT_NODE_SIZE_CELLS_DEFAULT),
        Some(top) => (
            spec_cells(top, "#address-cells"@, OF_ROOT_NODE_ADDR_CELLS_DEFAULT),
            spec_cells(top, "#size-cells"@, OF_ROOT_NODE_SIZE_CELLS_DEFAULT),
        ),
    }
}

/// The node of the device tree that holds what the boot loader chose:
/// the node `/chosen`, or else the node `/chosen@0`.
pub open spec fn chosen_node(root: Node) -> Option<Node> {
    match spec_find_root(root, encode_utf8("/chosen"@)) {
        Some(node) => Some(node),
        None => spec_find_root(root, encode_utf8("/chosen@0"@)),
    }
}

/// Where the ramdisk starts and ends, as the node `chosen` says: nothing
/// where it does not give both numbers. The node is refused where it
/// has both properties and one of them holds no number.
pub open spec fn spec_ramdisk(chosen: Node) -> Result<Option<(paddr_t, paddr_t)>, ErrNO> {
    let start = chosen.spec_prop("linux,initrd-start"@);
    let end = chosen.spec_prop("linux,initrd-end"@);
    if start is Some && end is Some {
        if in_buffer(start->Some_0, 0, 4) && in_buffer(end->Some_0, 0, 4) {
            Ok(
                Some(
                    (
                        spec_be_u32(start->Some_0, 0) as usize,
                        spec_be_u32(end->Some_0, 0) as usize,
                    ),
                ),
            )
        } else {
            Err(ErrNO::BadDTB)
        }
    } else {
        Ok(None)
    }
}

/// The command line that the node `chosen` gives: the text of its
/// property `bootargs`; empty where it has none, or none that is text.
pub open spec fn spec_cmdline(chosen: Node) -> Seq<char> {
    match chosen.spec_prop("bootargs"@) {
        None => Seq::empty(),
        Some(v) => match spec_text(v) {
            Ok(text) => text,
            Err(_) => Seq::empty(),
        },
    }
}

/// Reads what the boot loader chose from the device tree: the command
/// line, and where the ramdisk starts and ends, which the caller is to
/// add to the boot reservation table.
pub fn early_init_dt_scan_chosen<'a>(dt: &'a DeviceTree) -> (r: Result<
    (&'a str, Option<(paddr_t, paddr_t)>),
    ErrNO,
>)
    ensures
        match chosen_node(dt.root) {
            None => r is Ok && r->Ok_0.0@ == Seq::<char>::empty() && r->Ok_0.1 is None,
            Some(chosen) => match spec_ramdisk(chosen) {
                Err(e) => r is Err && r->Err_0 == e,
                Ok(ramdisk) => r is Ok && r->Ok_0.0@ == spec_cmdline(chosen) && r->Ok_0.1
                    == ramdisk,
            },
        },
{
    proof {
        reveal_strlit("");
        assert(""@ =~= Seq::<char>::empty());
    }
    let chosen = match dt.find("/chosen") {
        Some(node) => node,
        None => {
            if let Some(node) = dt.find("/chosen@0") {
                node
            } else {
                return Ok(("", None));
            }
        },
    };
    let mut ramdisk: Option<(paddr_t, paddr_t)> = None;
    if chosen.has_prop("linux,initrd-start") && chosen.has_prop("linux,initrd-end") {
        let start = match chosen.prop_u32_at("linux,initrd-start", 0) {
            Err(_) => {
                return Err(ErrNO::BadDTB);
            },
            Ok(start) => start as paddr_t,
        };
        let end = match chosen.prop_u32_at("linux,initrd-end", 0) {
            Err(_) => {
                return Err(ErrNO::BadDTB);
            },
            Ok(end) => end as paddr_t,
        };
        ramdisk = Some((start, end));
    }
    // Retrieve the command line.
    if let Ok(s) = chosen.prop_str("bootargs") {
        return Ok((s, ramdisk));
    }
    Ok(("", ramdisk))
}

/// The first page that the reservation `r` is taken to start in.
pub open spec fn reserve_first(r: BootReserveRange) -> int {
    spec_rounddown(r.pa as int, PAGE_SIZE as int)
}

/// How many pages are taken for the reservation `r`: its length in whole
/// pages.
pub open spec fn reserve_pages(r: BootReserveRange) -> int {
    spec_roundup(r.len as int, PAGE_SIZE as int) / (PAGE_SIZE as int)
}

/// Taking the pages of the reservations from position `i` on out of the
/// free list `free`, one reservation after the other, up to the first
/// whose pages are not all free: whether all were taken, the pages
/// taken, in the order of the table, and the free list that is left.
pub open spec fn wire_scan(free: Seq<usize>, res: Seq<BootReserveRange>, i: int) -> (
    bool,
    Seq<usize>,
    Seq<usize>,
)
    decreases res.len() - i,
{
    if i < 0 || i >= res.len() {
        (true, Seq::empty(), free)
    } else if !has_chunk(free, reserve_first(res[i]), reserve_pages(res[i]), 1) {
        (false, Seq::empty(), free)
    } else {
        let first = reserve_first(res[i]);
        let more = wire_scan(
            without_range(free, first, first + reserve_pages(res[i]) * PAGE_SIZE),
            res,
            i + 1,
        );
        (more.0, run_seq(first, reserve_pages(res[i])) + more.1, more.2)
    }
}

/// The pages `acc` before those that `more` names.
pub open spec fn wired_after(acc: Seq<usize>, more: (bool, Seq<usize>, Seq<usize>)) -> (
    bool,
    Seq<usize>,
    Seq<usize>,
) {
    (more.0, acc + more.1, more.2)
}

/// Takes the pages of the boot reservations `res` out of the free list of
/// `node` and marks them wired, so that they are never handed out, and
/// puts them behind the tail of `reserved`, in the order of the table.
/// Every page of every reservation must be a free page of `node`: at the
/// first reservation of which one is not, the pages of the reservations
/// before it stay allocated, and nothing is wired.
pub fn boot_reserve_wire(
    node: &mut PmmNode,
    res: &Vec<BootReserveRange>,
    reserved: &mut List<vm_page_t>,
) -> (r: Result<(), ErrNO>)
    requires
        old(node).wf(),
        old(reserved).spec_is_initialized(),
        forall|k: int| 0 <= k < res@.len() ==> (#[trigger] res@[k]).len + PAGE_SIZE <= usize::MAX,
    ensures
        final(node).wf(),
        final(reserved).spec_is_initialized(),
        ({
            let (ok, taken, left) = wire_scan(old(node).free_pages(), res@, 0);
            &&& r is Ok <==> ok
            &&& r is Err ==> r == Err::<(), ErrNO>(ErrNO::NotFound)
            &&& final(node).free_pages() == left
            &&& old(node).updated(
                final(node),
                taken.to_set(),
                if ok {
                    vm_page_state::WIRED
                } else {
                    vm_page_state::ALLOC
                },
            )
            &&& final(reserved)@ == (if ok {
                old(reserved)@ + taken
            } else {
                old(reserved)@
            })
        }),
{
    let ghost f0 = node.free_pages();
    let mut total_list = List::<vm_page_t>::new();
    total_list.init();
    let mut i: usize = 0;
    proof {
        crate::allocator::lemma_updated_same(old(node), vm_page_state::ALLOC);
        assert(total_list@.to_set() =~= Set::<usize>::empty());
        let all = wire_scan(f0, res@, 0);
        assert(Seq::<usize>::empty() + all.1 =~= all.1);
    }
    while i < res.len()
        invariant
            i <= res@.len(),
            old(node).wf(),
            node.wf(),
            total_list.spec_is_initialized(),
            f0 == old(node).free_pages(),
            reserved.spec_is_initialized(),
            reserved@ == old(reserved)@,
            forall|k: int|
                0 <= k < res@.len() ==> (#[trigger] res@[k]).len + PAGE_SIZE <= usize::MAX,
            old(node).updated(&*node, total_list@.to_set(), vm_page_state::ALLOC),
            total_list@.no_duplicates(),
            forall|k: int|
                0 <= k < total_list@.len() ==> old(node).manages(#[trigger] total_list@[k]) && old(
                    node,
                ).page_at(total_list@[k]).spec_state() == vm_page_state::FREE,
            wire_scan(f0, res@, 0) == wired_after(
                total_list@,
                wire_scan(node.free_pages(), res@, i as int),
            ),
        decreases res@.len() - i,
    {
        let range = res[i];
        let ghost before = *node;
        let ghost lb = total_list@;
        proof {
            lemma_roundup(range.len as int, PAGE_SIZE as int);
            lemma_rounddown(range.pa as int, PAGE_SIZE as int);
            before.lemma_chunk_is_free(reserve_first(range), reserve_pages(range), 1);
        }
        let pages = roundup_page_size(range.len) / PAGE_SIZE;
        match pmm_alloc_range(node, range.pa, pages, &mut total_list) {
            Err(_) => {
                proof {
                    old(node).lemma_updated_trans(
                        &before,
                        &*node,
                        lb.to_set(),
                        Set::empty(),
                        vm_page_state::ALLOC,
                    );
                    assert(lb.to_set().union(Set::<usize>::empty()) =~= lb.to_set());
                    assert(lb + Seq::<usize>::empty() =~= lb);
                }
                return Err(ErrNO::NotFound);
            },
            Ok(_) => {},
        }
        proof {
            let first = reserve_first(range);
            let run = run_seq(first, pages as int);
            assert(total_list@ =~= lb + run);
            old(node).lemma_run_taken(&before, &*node, lb, first, pages as int);
            let more = wire_scan(node.free_pages(), res@, i + 1);
            assert(lb + (run + more.1) =~= (lb + run) + more.1);
        }
        i += 1;
    }
    let ghost mid = *node;
    let ghost taken = total_list@;
    let paddrs = total_list.iter();
    proof {
        assert(taken + Seq::<usize>::empty() =~= taken);
        assert forall|k: int| 0 <= k < paddrs@.len() implies mid.manages(#[trigger] paddrs@[k])
            && mid.page_at(paddrs@[k]).spec_state() != vm_page_state::FREE by {
            let p = paddrs@[k];
            assert(old(node).manages(taken[k]));
            assert(taken.to_set().contains(p));
            crate::page::vm_page::lemma_with(old(node).page_at(p), vm_page_state::ALLOC, false);
            crate::page::vm_page::lemma_with(
                old(node).page_at(p).with_state(vm_page_state::ALLOC),
                vm_page_state::ALLOC,
                false,
            );
        }
    }
    // Mark all of the pages we allocated as wired.
    node.set_states(&paddrs, vm_page_state::WIRED);
    proof {
        old(node).lemma_updated_restate(&mid, &*node, taken.to_set(), vm_page_state::WIRED);
    }
    reserved.splice(&mut total_list);
    Ok(())
}

} // verus!
