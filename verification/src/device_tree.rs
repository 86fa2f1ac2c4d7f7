//! Flattened device trees: the binary form in which a boot loader
//! describes the hardware. A tree is a header, a list of reserved memory
//! regions, a block of nested nodes with their properties, and a table
//! of the names of the properties.
pub mod util;

use vstd::prelude::*;
use vstd::slice::slice_to_vec;
use vstd::utf8::{decode_utf8, encode_utf8, encode_utf8_decode_utf8, valid_utf8};
use vstd::slice::slice_subrange;
use crate::device_tree::util::{
    bytes_eq, in_buffer, lemma_string0_end, read_be_u32, read_be_u64, read_bstring0, spec_align,
    spec_be_u32, spec_be_u64, string0_end, subslice, utf8_str, SliceReadError,
};

verus! {

/// The number at the start of every flattened device tree.
pub const MAGIC_NUMBER: u32 = 0xd00dfeed;

/// The version of the format that is understood.
pub const SUPPORTED_VERSION: u32 = 17;

/// The token that opens a node.
pub const OF_DT_BEGIN_NODE: u32 = 0x00000001;

/// The token that closes a node.
pub const OF_DT_END_NODE: u32 = 0x00000002;

/// The token that opens a property.
pub const OF_DT_PROP: u32 = 0x00000003;

/// Why a device tree could not be read.
#[derive(Debug, PartialEq, Eq)]
pub enum DeviceTreeError {
    /// The buffer does not start with `MAGIC_NUMBER`.
    InvalidMagicNumber,
    /// The size in the header is not the size of the buffer.
    SizeMismatch,
    /// The buffer ends before what was to be read.
    SliceReadError(SliceReadError),
    /// The token at the given position is not the one that must stand
    /// there.
    ParseError(usize),
    /// A name is no valid text.
    Utf8Error,
    /// The version in the header is not `SUPPORTED_VERSION`.
    VersionNotSupported,
}

/// Why a property could not be read.
#[derive(Debug, PartialEq, Eq)]
pub enum PropError {
    /// The node has no property of that name.
    NotFound,
    /// The value is no valid text.
    Utf8Error,
    /// The value does not end with a zero byte.
    Missing0,
    /// The value ends before what was to be read.
    SliceReadError(SliceReadError),
}

/// A node of a device tree.
#[derive(Debug)]
pub struct Node {
    /// The name of the node, as it appears in the path of the node.
    pub name: String,
    /// The properties of the node, each a name and a value.
    pub props: Vec<(String, Vec<u8>)>,
    /// The nodes below this node.
    pub children: Vec<Node>,
}

/// A device tree.
#[derive(Debug)]
pub struct DeviceTree {
    /// The version of the format, as the header gives it.
    pub version: u32,
    /// The number of the CPU that the system boots from.
    pub boot_cpuid_phys: u32,
    /// The reserved memory regions, each an address and a length; the
    /// last has the length zero.
    pub reserved: Vec<(u64, u64)>,
    /// The root node.
    pub root: Node,
}

/// A node of a device tree as a mathematical value.
pub struct NodeView {
    pub name: Seq<char>,
    pub props: Seq<(Seq<char>, Seq<u8>)>,
    pub children: Seq<NodeView>,
}

/// A device tree as a mathematical value.
pub struct TreeView {
    pub version: u32,
    pub boot_cpuid_phys: u32,
    pub reserved: Seq<(u64, u64)>,
    pub root: NodeView,
}

/// The property `p` as a mathematical value.
pub open spec fn prop_view(p: (String, Vec<u8>)) -> (Seq<char>, Seq<u8>) {
    (p.0@, p.1@)
}

/// The error of a read past the end of the buffer.
pub open spec fn end_of_input() -> DeviceTreeError {
    DeviceTreeError::SliceReadError(SliceReadError::UnexpectedEndOfInput)
}

/// What reading the properties from position `pos` on gives: the
/// position behind them and the properties, in their order. The names
/// of the properties are strings in the table at position `strs`.
pub open spec fn parse_props(b: Seq<u8>, pos: int, strs: int) -> Result<
    (int, Seq<(Seq<char>, Seq<u8>)>),
    DeviceTreeError,
>
    decreases b.len() - pos,
{
    if !in_buffer(b, pos, 4) {
        Err(end_of_input())
    } else if spec_be_u32(b, pos) != OF_DT_PROP {
        Ok((pos, Seq::empty()))
    } else if !in_buffer(b, pos + 4, 4) || !in_buffer(b, pos + 8, 4) {
        Err(end_of_input())
    } else {
        let val_start = pos + 12;
        let val_end = val_start + spec_be_u32(b, pos + 4);
        let name_start = strs + spec_be_u32(b, pos + 8);
        let next = spec_align(val_end, 4);
        if val_end > b.len() || string0_end(b, name_start) is None {
            Err(end_of_input())
        } else if !valid_utf8(b.subrange(name_start, string0_end(b, name_start)->Some_0)) {
            Err(DeviceTreeError::Utf8Error)
        } else if next <= pos || next > b.len() {
            Err(end_of_input())
        } else {
            let name = decode_utf8(b.subrange(name_start, string0_end(b, name_start)->Some_0));
            match parse_props(b, next, strs) {
                Err(e) => Err(e),
                Ok((end, rest)) => Ok((end, seq![(name, b.subrange(val_start, val_end))] + rest)),
            }
        }
    }
}

/// What reading the node at position `start` gives: the position behind
/// it and the node.
pub open spec fn parse_node(b: Seq<u8>, start: int, strs: int) -> Result<
    (int, NodeView),
    DeviceTreeError,
>
    decreases b.len() - start, 0int,
{
    if !in_buffer(b, start, 4) {
        Err(end_of_input())
    } else if spec_be_u32(b, start) != OF_DT_BEGIN_NODE {
        Err(DeviceTreeError::ParseError(start as usize))
    } else if string0_end(b, start + 4) is None {
        Err(end_of_input())
    } else {
        let name_end = string0_end(b, start + 4)->Some_0;
        let raw_name = b.subrange(start + 4, name_end);
        match parse_props(b, spec_align(name_end + 1, 4), strs) {
            Err(e) => Err(e),
            Ok((behind_props, props)) => if behind_props <= start || behind_props > b.len() {
                Err(end_of_input())
            } else {
                match parse_children(b, behind_props, strs) {
                    Err(e) => Err(e),
                    Ok((end, children)) => if !in_buffer(b, end, 4) {
                        Err(end_of_input())
                    } else if spec_be_u32(b, end) != OF_DT_END_NODE {
                        Err(DeviceTreeError::ParseError(end as usize))
                    } else if !valid_utf8(raw_name) {
                        Err(DeviceTreeError::Utf8Error)
                    } else {
                        Ok((end + 4, NodeView { name: decode_utf8(raw_name), props, children }))
                    },
                }
            },
        }
    }
}

/// What reading the nodes from position `pos` on gives, which lie one
/// behind the other: the position behind them and the nodes, in their
/// order.
pub open spec fn parse_children(b: Seq<u8>, pos: int, strs: int) -> Result<
    (int, Seq<NodeView>),
    DeviceTreeError,
>
    decreases b.len() - pos, 1int,
{
    if !in_buffer(b, pos, 4) {
        Err(end_of_input())
    } else if spec_be_u32(b, pos) != OF_DT_BEGIN_NODE {
        Ok((pos, Seq::empty()))
    } else {
        match parse_node(b, pos, strs) {
            Err(e) => Err(e),
            Ok((behind, child)) => if behind <= pos || behind > b.len() {
                Err(end_of_input())
            } else {
                match parse_children(b, behind, strs) {
                    Err(e) => Err(e),
                    Ok((end, rest)) => Ok((end, seq![child] + rest)),
                }
            },
        }
    }
}

/// What reading the list of reserved memory regions at position `pos`
/// gives: the regions up to the first of length zero, which is the last.
pub open spec fn parse_reserved(b: Seq<u8>, pos: int) -> Result<Seq<(u64, u64)>, DeviceTreeError>
    decreases b.len() - pos,
{
    if !in_buffer(b, pos, 8) || !in_buffer(b, pos + 8, 8) {
        Err(end_of_input())
    } else {
        let entry = (spec_be_u64(b, pos) as u64, spec_be_u64(b, pos + 8) as u64);
        if entry.1 == 0 {
            Ok(seq![entry])
        } else {
            match parse_reserved(b, pos + 16) {
                Err(e) => Err(e),
                Ok(rest) => Ok(seq![entry] + rest),
            }
        }
    }
}

/// What reading a device tree from the buffer `b` gives.
pub open spec fn parse_tree(b: Seq<u8>) -> Result<TreeView, DeviceTreeError> {
    if !in_buffer(b, 0, 4) {
        Err(end_of_input())
    } else if spec_be_u32(b, 0) != MAGIC_NUMBER {
        Err(DeviceTreeError::InvalidMagicNumber)
    } else if !in_buffer(b, 4, 4) {
        Err(end_of_input())
    } else if spec_be_u32(b, 4) != b.len() {
        Err(DeviceTreeError::SizeMismatch)
    } else if !in_buffer(b, 20, 4) {
        Err(end_of_input())
    } else if spec_be_u32(b, 20) != SUPPORTED_VERSION {
        Err(DeviceTreeError::VersionNotSupported)
    } else if !in_buffer(b, 28, 4) {
        Err(end_of_input())
    } else {
        match parse_reserved(b, spec_be_u32(b, 16)) {
            Err(e) => Err(e),
            Ok(reserved) => match parse_node(b, spec_be_u32(b, 8), spec_be_u32(b, 12)) {
                Err(e) => Err(e),
                Ok((_, root)) => Ok(
                    TreeView {
                        version: spec_be_u32(b, 20) as u32,
                        boot_cpuid_phys: spec_be_u32(b, 28) as u32,
                        reserved,
                        root,
                    },
                ),
            },
        }
    }
}

/// The properties `acc` before those that `more` gives.
pub open spec fn props_after(
    acc: Seq<(Seq<char>, Seq<u8>)>,
    more: Result<(int, Seq<(Seq<char>, Seq<u8>)>), DeviceTreeError>,
) -> Result<(int, Seq<(Seq<char>, Seq<u8>)>), DeviceTreeError> {
    match more {
        Err(e) => Err(e),
        Ok((end, rest)) => Ok((end, acc + rest)),
    }
}

/// The nodes `acc` before those that `more` gives.
pub open spec fn nodes_after(
    acc: Seq<NodeView>,
    more: Result<(int, Seq<NodeView>), DeviceTreeError>,
) -> Result<(int, Seq<NodeView>), DeviceTreeError> {
    match more {
        Err(e) => Err(e),
        Ok((end, rest)) => Ok((end, acc + rest)),
    }
}

/// The regions `acc` before those that `more` gives.
pub open spec fn regions_after(
    acc: Seq<(u64, u64)>,
    more: Result<Seq<(u64, u64)>, DeviceTreeError>,
) -> Result<Seq<(u64, u64)>, DeviceTreeError> {
    match more {
        Err(e) => Err(e),
        Ok(rest) => Ok(acc + rest),
    }
}

/// The nodes `nodes` as mathematical values.
pub open spec fn children_view(nodes: Seq<Node>) -> Seq<NodeView> {
    Seq::new(
        nodes.len(),
        |i: int|
            if 0 <= i < nodes.len() {
                nodes[i]@
            } else {
                arbitrary()
            },
    )
}

impl Node {
    /// The node as a mathematical value.
    pub open spec fn view(&self) -> NodeView
        decreases self,
    {
        NodeView {
            name: self.name@,
            props: self.props@.map_values(|p: (String, Vec<u8>)| prop_view(p)),
            children: Seq::new(
                self.children@.len(),
                |i: int|
                    if 0 <= i < self.children@.len() {
                        self.children@[i].view()
                    } else {
                        arbitrary()
                    },
            ),
        }
    }

    /// Reads the node at position `start` of `buffer`; the names of its
    /// properties are strings in the table at position `off_dt_strings`.
    /// Returns the position behind the node, and the node.
    pub fn load(buffer: &[u8], start: usize, off_dt_strings: usize) -> (r: Result<
        (usize, Node),
        DeviceTreeError,
    >)
        ensures
            match r {
                Ok((end, node)) => parse_node(buffer@, start as int, off_dt_strings as int) == Ok::<
                    (int, NodeView),
                    DeviceTreeError,
                >((end as int, node@)) && start < end <= buffer@.len(),
                Err(e) => parse_node(buffer@, start as int, off_dt_strings as int) == Err::<
                    (int, NodeView),
                    DeviceTreeError,
                >(e),
            },
        decreases buffer@.len() - start, 0int,
    {
        let ghost b = buffer@;
        let ghost strs = off_dt_strings as int;
        let len = buffer.len();
        // Check for the token that opens a node.
        match read_be_u32(buffer, start) {
            Err(e) => {
                return Err(DeviceTreeError::SliceReadError(e));
            },
            Ok(token) => {
                if token != OF_DT_BEGIN_NODE {
                    return Err(DeviceTreeError::ParseError(start));
                }
            },
        }
        let raw_name = match read_bstring0(buffer, start + 4) {
            Err(e) => {
                return Err(DeviceTreeError::SliceReadError(e));
            },
            Ok(raw_name) => raw_name,
        };
        proof {
            lemma_string0_end(b, start + 4);
        }
        let name_end = start + 4 + raw_name.len();
        let (behind_props, props) = match Self::load_props(buffer, name_end + 1, off_dt_strings) {
            Err(e) => {
                return Err(e);
            },
            Ok(found) => found,
        };
        // Finally, read the children.
        let (pos, children) = match Self::load_children(buffer, behind_props, off_dt_strings) {
            Err(e) => {
                return Err(e);
            },
            Ok(found) => found,
        };
        match read_be_u32(buffer, pos) {
            Err(e) => {
                return Err(DeviceTreeError::SliceReadError(e));
            },
            Ok(token) => {
                if token != OF_DT_END_NODE {
                    return Err(DeviceTreeError::ParseError(pos));
                }
            },
        }
        let name = match utf8_str(raw_name) {
            None => {
                return Err(DeviceTreeError::Utf8Error);
            },
            Some(name) => name.to_owned(),
        };
        let node = Node { name, props, children };
        proof {
            encode_utf8_decode_utf8(node.name@);
            assert(node@.children =~= children_view(children@));
        }
        Ok((pos + 4, node))
    }

    /// Reads the nodes from position `from` of `buffer` on, which lie
    /// one behind the other. Returns the position behind them, and the
    /// nodes.
    fn load_children(buffer: &[u8], from: usize, off_dt_strings: usize) -> (r: Result<
        (usize, Vec<Node>),
        DeviceTreeError,
    >)
        requires
            from <= buffer@.len(),
        ensures
            match r {
                Ok((end, nodes)) => parse_children(
                    buffer@,
                    from as int,
                    off_dt_strings as int,
                ) == Ok::<(int, Seq<NodeView>), DeviceTreeError>(
                    (end as int, children_view(nodes@)),
                ) && from <= end <= buffer@.len(),
                Err(e) => parse_children(buffer@, from as int, off_dt_strings as int) == Err::<
                    (int, Seq<NodeView>),
                    DeviceTreeError,
                >(e),
            },
        decreases buffer@.len() - from, 1int,
    {
        let ghost b = buffer@;
        let ghost strs = off_dt_strings as int;
        let len = buffer.len();
        let mut pos = from;
        let mut children: Vec<Node> = Vec::new();
        proof {
            lemma_nodes_after_none(parse_children(b, pos as int, strs));
            assert(children_view(children@) =~= Seq::<NodeView>::empty());
        }
        loop
            invariant
                b == buffer@,
                len == b.len(),
                strs == off_dt_strings,
                from <= pos <= len,
                parse_children(b, from as int, strs) == nodes_after(
                    children_view(children@),
                    parse_children(b, pos as int, strs),
                ),
            decreases b.len() - pos,
        {
            match read_be_u32(buffer, pos) {
                Err(e) => {
                    return Err(DeviceTreeError::SliceReadError(e));
                },
                Ok(token) => {
                    if token != OF_DT_BEGIN_NODE {
                        proof {
                            assert(children_view(children@) + Seq::<NodeView>::empty()
                                =~= children_view(children@));
                        }
                        return Ok((pos, children));
                    }
                },
            }
            let (new_pos, child_node) = match Node::load(buffer, pos, off_dt_strings) {
                Err(e) => {
                    return Err(e);
                },
                Ok(found) => found,
            };
            let ghost before = children_view(children@);
            proof {
                lemma_nodes_after_one(before, child_node@, parse_children(b, new_pos as int, strs));
            }
            pos = new_pos;
            children.push(child_node);
            proof {
                assert(children_view(children@) =~= before.push(child_node@));
            }
        }
    }

    /// Reads the properties that follow the name of a node, which ends
    /// before position `from`: they start at the next multiple of four.
    /// Returns the position behind them, and the properties.
    fn load_props(buffer: &[u8], from: usize, off_dt_strings: usize) -> (r: Result<
        (usize, Vec<(String, Vec<u8>)>),
        DeviceTreeError,
    >)
        requires
            from <= buffer@.len(),
        ensures
            match r {
                Ok((end, props)) => parse_props(
                    buffer@,
                    spec_align(from as int, 4),
                    off_dt_strings as int,
                ) == Ok::<(int, Seq<(Seq<char>, Seq<u8>)>), DeviceTreeError>(
                    (end as int, props@.map_values(|p: (String, Vec<u8>)| prop_view(p))),
                ) && from <= end <= buffer@.len(),
                Err(e) => parse_props(
                    buffer@,
                    spec_align(from as int, 4),
                    off_dt_strings as int,
                ) == Err::<(int, Seq<(Seq<char>, Seq<u8>)>), DeviceTreeError>(e),
            },
    {
        let ghost b = buffer@;
        let ghost strs = off_dt_strings as int;
        let len = buffer.len();
        let padding = (4 - from % 4) % 4;
        if padding > len - from {
            return Err(DeviceTreeError::SliceReadError(SliceReadError::UnexpectedEndOfInput));
        }
        let first = from + padding;
        let mut pos = first;
        let mut props: Vec<(String, Vec<u8>)> = Vec::new();
        let ghost mut views: Seq<(Seq<char>, Seq<u8>)> = Seq::empty();
        proof {
            lemma_props_after_none(parse_props(b, pos as int, strs));
        }
        loop
            invariant
                b == buffer@,
                len == b.len(),
                strs == off_dt_strings,
                from <= first <= pos,
                first == spec_align(from as int, 4),
                views == props@.map_values(|p: (String, Vec<u8>)| prop_view(p)),
                parse_props(b, first as int, strs) == props_after(
                    views,
                    parse_props(b, pos as int, strs),
                ),
            decreases b.len() - pos,
        {
            match read_be_u32(buffer, pos) {
                Err(e) => {
                    return Err(DeviceTreeError::SliceReadError(e));
                },
                Ok(token) => {
                    if token != OF_DT_PROP {
                        proof {
                            assert(views + Seq::<(Seq<char>, Seq<u8>)>::empty() =~= views);
                        }
                        return Ok((pos, props));
                    }
                },
            }
            let val_size = match read_be_u32(buffer, pos + 4) {
                Err(e) => {
                    return Err(DeviceTreeError::SliceReadError(e));
                },
                Ok(val_size) => val_size as usize,
            };
            let name_offset = match read_be_u32(buffer, pos + 8) {
                Err(e) => {
                    return Err(DeviceTreeError::SliceReadError(e));
                },
                Ok(name_offset) => name_offset as usize,
            };
            // Get the value.
            let val_start = pos + 12;
            if val_size > len - val_start {
                return Err(DeviceTreeError::SliceReadError(SliceReadError::UnexpectedEndOfInput));
            }
            let val_end = val_start + val_size;
            let val = match subslice(buffer, val_start, val_end) {
                Err(e) => {
                    return Err(DeviceTreeError::SliceReadError(e));
                },
                Ok(val) => val,
            };
            // Look the name up in the table of strings.
            if name_offset > usize::MAX - off_dt_strings {
                proof {
                    lemma_string0_end(b, strs + name_offset);
                }
                return Err(DeviceTreeError::SliceReadError(SliceReadError::UnexpectedEndOfInput));
            }
            let prop_name = match read_bstring0(buffer, off_dt_strings + name_offset) {
                Err(e) => {
                    return Err(DeviceTreeError::SliceReadError(e));
                },
                Ok(prop_name) => prop_name,
            };
            let name = match utf8_str(prop_name) {
                None => {
                    return Err(DeviceTreeError::Utf8Error);
                },
                Some(name) => name.to_owned(),
            };
            // The next property starts at a multiple of four.
            let padding = (4 - val_end % 4) % 4;
            if padding > len - val_end {
                return Err(DeviceTreeError::SliceReadError(SliceReadError::UnexpectedEndOfInput));
            }
            let next = val_end + padding;
            let value = slice_to_vec(val);
            proof {
                encode_utf8_decode_utf8(name@);
                lemma_props_after_one(views, (name@, value@), parse_props(b, next as int, strs));
                views = views.push((name@, value@));
            }
            props.push((name, value));
            proof {
                assert(props@.map_values(|p: (String, Vec<u8>)| prop_view(p)) =~= views);
            }
            pos = next;
        }
    }
}

/// Nothing before what `more` gives is what `more` gives.
proof fn lemma_props_after_none(
    more: Result<(int, Seq<(Seq<char>, Seq<u8>)>), DeviceTreeError>,
)
    ensures
        props_after(Seq::empty(), more) == more,
{
    if more is Ok {
        assert(Seq::<(Seq<char>, Seq<u8>)>::empty() + more->Ok_0.1 =~= more->Ok_0.1);
    }
}

/// Properties before a property before others are all before the
/// others.
proof fn lemma_props_after_one(
    acc: Seq<(Seq<char>, Seq<u8>)>,
    one: (Seq<char>, Seq<u8>),
    more: Result<(int, Seq<(Seq<char>, Seq<u8>)>), DeviceTreeError>,
)
    ensures
        props_after(acc, props_after(seq![one], more)) == props_after(acc.push(one), more),
{
    if more is Ok {
        assert(acc + (seq![one] + more->Ok_0.1) =~= acc.push(one) + more->Ok_0.1);
    }
}

/// Nothing before what `more` gives is what `more` gives.
proof fn lemma_nodes_after_none(more: Result<(int, Seq<NodeView>), DeviceTreeError>)
    ensures
        nodes_after(Seq::empty(), more) == more,
{
    if more is Ok {
        assert(Seq::<NodeView>::empty() + more->Ok_0.1 =~= more->Ok_0.1);
    }
}

/// Nodes before a node before others are all before the others.
proof fn lemma_nodes_after_one(
    acc: Seq<NodeView>,
    one: NodeView,
    more: Result<(int, Seq<NodeView>), DeviceTreeError>,
)
    ensures
        nodes_after(acc, nodes_after(seq![one], more)) == nodes_after(acc.push(one), more),
{
    if more is Ok {
        assert(acc + (seq![one] + more->Ok_0.1) =~= acc.push(one) + more->Ok_0.1);
    }
}

/// Nothing before what `more` gives is what `more` gives.
proof fn lemma_regions_after_none(more: Result<Seq<(u64, u64)>, DeviceTreeError>)
    ensures
        regions_after(Seq::empty(), more) == more,
{
    if more is Ok {
        assert(Seq::<(u64, u64)>::empty() + more->Ok_0 =~= more->Ok_0);
    }
}

/// Regions before a region before others are all before the others.
proof fn lemma_regions_after_one(
    acc: Seq<(u64, u64)>,
    one: (u64, u64),
    more: Result<Seq<(u64, u64)>, DeviceTreeError>,
)
    ensures
        regions_after(acc, regions_after(seq![one], more)) == regions_after(acc.push(one), more),
        regions_after(acc, Ok(seq![one])) == Ok::<Seq<(u64, u64)>, DeviceTreeError>(acc.push(one)),
{
    if more is Ok {
        assert(acc + (seq![one] + more->Ok_0) =~= acc.push(one) + more->Ok_0);
    }
    assert(acc + seq![one] =~= acc.push(one));
}

/// Texts with the same bytes are the same.
pub proof fn lemma_same_bytes(a: Seq<char>, b: Seq<char>)
    ensures
        (encode_utf8(a) == encode_utf8(b)) == (a == b),
{
    encode_utf8_decode_utf8(a);
    encode_utf8_decode_utf8(b);
}

/// The first property at or behind position `from` that has the name
/// `name`, if there is one.
pub open spec fn first_prop(props: Seq<(Seq<char>, Seq<u8>)>, name: Seq<char>, from: int)
    -> Option<int>
    decreases props.len() - from,
{
    if from < 0 || from >= props.len() {
        None
    } else if props[from].0 == name {
        Some(from)
    } else {
        first_prop(props, name, from + 1)
    }
}

/// The first node at or behind position `from` whose name has the bytes
/// `name`, if there is one.
pub open spec fn first_child(nodes: Seq<Node>, name: Seq<u8>, from: int) -> Option<int>
    decreases nodes.len() - from,
{
    if from < 0 || from >= nodes.len() {
        None
    } else if encode_utf8(nodes[from].name@) == name {
        Some(from)
    } else {
        first_child(nodes, name, from + 1)
    }
}

/// Where the first slash at or behind position `from` of `path` is; the
/// length of `path` if there is none.
pub open spec fn first_slash(path: Seq<u8>, from: int) -> int
    decreases path.len() - from,
{
    if from < 0 || from >= path.len() {
        path.len() as int
    } else if path[from] == 0x2f {
        from
    } else {
        first_slash(path, from + 1)
    }
}

/// The node that the path `path` leads to from the node `node`: the
/// names of the nodes on the way, each the first of that name among the
/// children of the one before, with slashes between them. The empty
/// path leads to `node` itself.
pub open spec fn spec_find(node: Node, path: Seq<u8>) -> Option<Node>
    decreases path.len(),
{
    if path.len() == 0 {
        Some(node)
    } else {
        let k = first_slash(path, 0);
        match first_child(node.children@, path.subrange(0, k), 0) {
            None => None,
            Some(i) => if 0 <= k < path.len() {
                spec_find(node.children@[i], path.subrange(k + 1, path.len() as int))
            } else {
                Some(node.children@[i])
            },
        }
    }
}

/// What `prop_str` gives for the value `raw`: the text before the zero
/// byte that ends it.
pub open spec fn spec_text(raw: Seq<u8>) -> Result<Seq<char>, PropError> {
    if raw.len() < 1 || raw.last() != 0 {
        Err(PropError::Missing0)
    } else if !valid_utf8(raw.drop_last()) {
        Err(PropError::Utf8Error)
    } else {
        Ok(decode_utf8(raw.drop_last()))
    }
}

impl Node {
    /// The value of the first property that has the name `name`.
    pub open spec fn spec_prop(&self, name: Seq<char>) -> Option<Seq<u8>> {
        match first_prop(self@.props, name, 0) {
            None => None,
            Some(i) => Some(self@.props[i].1),
        }
    }

    /// The node that the path `path` leads to from this node: the names
    /// of the nodes on the way with slashes between them.
    pub fn find<'a>(&'a self, path: &str) -> (r: Option<&'a Node>)
        ensures
            match r {
                Some(node) => spec_find(*self, encode_utf8(path@)) == Some(*node),
                None => spec_find(*self, encode_utf8(path@)) is None,
            },
    {
        self.find_bytes(path.as_bytes())
    }

    /// The node that the path with the bytes `path` leads to from this
    /// node.
    fn find_bytes<'a>(&'a self, path: &[u8]) -> (r: Option<&'a Node>)
        ensures
            match r {
                Some(node) => spec_find(*self, path@) == Some(*node),
                None => spec_find(*self, path@) is None,
            },
        decreases path@.len(),
    {
        let len = path.len();
        if len == 0 {
            return Some(self);
        }
        let mut k: usize = 0;
        while k < len && path[k] != 0x2f
            invariant
                k <= len,
                len == path@.len(),
                first_slash(path@, 0) == first_slash(path@, k as int),
            decreases len - k,
        {
            k += 1;
        }
        let name = slice_subrange(path, 0, k);
        let mut i: usize = 0;
        while i < self.children.len()
            invariant
                i <= self.children@.len(),
                k <= len,
                len == path@.len(),
                len > 0,
                k == first_slash(path@, 0),
                name@ == path@.subrange(0, k as int),
                first_child(self.children@, name@, 0) == first_child(
                    self.children@,
                    name@,
                    i as int,
                ),
            decreases self.children@.len() - i,
        {
            let child = &self.children[i];
            if bytes_eq(child.name.as_str().as_bytes(), name) {
                if k < len {
                    return child.find_bytes(slice_subrange(path, k + 1, len));
                }
                return Some(child);
            }
            i += 1;
        }
        None
    }

    /// Tells whether the node has a property of the name `name`.
    pub fn has_prop(&self, name: &str) -> (r: bool)
        ensures
            r == (self.spec_prop(name@) is Some),
    {
        if let Some(_) = self.prop_raw(name) {
            true
        } else {
            false
        }
    }

    /// The length of the value of the first property that has the name
    /// `name`; zero if there is none.
    pub fn prop_len(&self, name: &str) -> (r: usize)
        ensures
            r == (match self.spec_prop(name@) {
                None => 0,
                Some(v) => v.len(),
            }),
    {
        if let Some(v) = self.prop_raw(name) {
            v.len()
        } else {
            0
        }
    }

    /// The value of the first property that has the name `name`, as
    /// text: the value must end with a zero byte, which is left out.
    pub fn prop_str<'a>(&'a self, name: &str) -> (r: Result<&'a str, PropError>)
        ensures
            match r {
                Ok(text) => self.spec_prop(name@) is Some && spec_text(self.spec_prop(name@)->Some_0)
                    == Ok::<Seq<char>, PropError>(text@),
                Err(e) => if self.spec_prop(name@) is None {
                    e == PropError::NotFound
                } else {
                    spec_text(self.spec_prop(name@)->Some_0) == Err::<Seq<char>, PropError>(e)
                },
            },
    {
        let raw = match self.prop_raw(name) {
            None => {
                return Err(PropError::NotFound);
            },
            Some(raw) => raw,
        };
        let l = raw.len();
        if l < 1 || raw[l - 1] != 0 {
            return Err(PropError::Missing0);
        }
        let bytes = slice_subrange(raw.as_slice(), 0, l - 1);
        assert(bytes@ =~= raw@.drop_last());
        match utf8_str(bytes) {
            None => Err(PropError::Utf8Error),
            Some(text) => {
                proof {
                    encode_utf8_decode_utf8(text@);
                }
                Ok(text)
            },
        }
    }

    /// The value of the first property that has the name `name`.
    pub fn prop_raw<'a>(&'a self, name: &str) -> (r: Option<&'a Vec<u8>>)
        ensures
            match r {
                Some(v) => self.spec_prop(name@) == Some(v@),
                None => self.spec_prop(name@) is None,
            },
    {
        let wanted = name.as_bytes();
        let ghost props = self@.props;
        let mut i: usize = 0;
        while i < self.props.len()
            invariant
                i <= self.props@.len(),
                props == self@.props,
                props.len() == self.props@.len(),
                wanted@ == encode_utf8(name@),
                first_prop(props, name@, 0) == first_prop(props, name@, i as int),
            decreases self.props@.len() - i,
        {
            let prop = &self.props[i];
            proof {
                lemma_same_bytes(prop.0@, name@);
                assert(props[i as int] == prop_view(self.props@[i as int]));
            }
            if bytes_eq(prop.0.as_str().as_bytes(), wanted) {
                return Some(&prop.1);
            }
            i += 1;
        }
        None
    }

    /// The number that the eight bytes from position `pos` on of the
    /// value of the first property of the name `name` hold, the most
    /// significant byte first.
    pub fn prop_u64_at(&self, name: &str, pos: usize) -> (r: Result<u64, PropError>)
        ensures
            match self.spec_prop(name@) {
                None => r is Err && r->Err_0 == PropError::NotFound,
                Some(v) => if in_buffer(v, pos as int, 8) {
                    r is Ok && r->Ok_0 == spec_be_u64(v, pos as int)
                } else {
                    r is Err && r->Err_0 == PropError::SliceReadError(
                        SliceReadError::UnexpectedEndOfInput,
                    )
                },
            },
    {
        let raw = match self.prop_raw(name) {
            None => {
                return Err(PropError::NotFound);
            },
            Some(raw) => raw,
        };
        match read_be_u64(raw.as_slice(), pos) {
            Err(e) => Err(PropError::SliceReadError(e)),
            Ok(value) => Ok(value),
        }
    }

    /// The number that the first eight bytes of the value of the first
    /// property of the name `name` hold.
    pub fn prop_u64(&self, name: &str) -> (r: Result<u64, PropError>)
        ensures
            match self.spec_prop(name@) {
                None => r is Err && r->Err_0 == PropError::NotFound,
                Some(v) => if in_buffer(v, 0, 8) {
                    r is Ok && r->Ok_0 == spec_be_u64(v, 0)
                } else {
                    r is Err && r->Err_0 == PropError::SliceReadError(
                        SliceReadError::UnexpectedEndOfInput,
                    )
                },
            },
    {
        self.prop_u64_at(name, 0)
    }

    /// The number that the four bytes from position `pos` on of the
    /// value of the first property of the name `name` hold, the most
    /// significant byte first.
    pub fn prop_u32_at(&self, name: &str, pos: usize) -> (r: Result<u32, PropError>)
        ensures
            match self.spec_prop(name@) {
                None => r is Err && r->Err_0 == PropError::NotFound,
                Some(v) => if in_buffer(v, pos as int, 4) {
                    r is Ok && r->Ok_0 == spec_be_u32(v, pos as int)
                } else {
                    r is Err && r->Err_0 == PropError::SliceReadError(
                        SliceReadError::UnexpectedEndOfInput,
                    )
                },
            },
    {
        let raw = match self.prop_raw(name) {
            None => {
                return Err(PropError::NotFound);
            },
            Some(raw) => raw,
        };
        match read_be_u32(raw.as_slice(), pos) {
            Err(e) => Err(PropError::SliceReadError(e)),
            Ok(value) => Ok(value),
        }
    }

    /// The number that the first four bytes of the value of the first
    /// property of the name `name` hold.
    pub fn prop_u32(&self, name: &str) -> (r: Result<u32, PropError>)
        ensures
            match self.spec_prop(name@) {
                None => r is Err && r->Err_0 == PropError::NotFound,
                Some(v) => if in_buffer(v, 0, 4) {
                    r is Ok && r->Ok_0 == spec_be_u32(v, 0)
                } else {
                    r is Err && r->Err_0 == PropError::SliceReadError(
                        SliceReadError::UnexpectedEndOfInput,
                    )
                },
            },
    {
        self.prop_u32_at(name, 0)
    }
}

impl DeviceTree {
    /// The tree as a mathematical value.
    pub open spec fn view(&self) -> TreeView {
        TreeView {
            version: self.version,
            boot_cpuid_phys: self.boot_cpuid_phys,
            reserved: self.reserved@,
            root: self.root@,
        }
    }

    /// Reads a device tree from a buffer, which must hold the tree and
    /// nothing else.
    pub fn load(buffer: &[u8]) -> (r: Result<DeviceTree, DeviceTreeError>)
        ensures
            match r {
                Ok(tree) => parse_tree(buffer@) == Ok::<TreeView, DeviceTreeError>(tree@),
                Err(e) => parse_tree(buffer@) == Err::<TreeView, DeviceTreeError>(e),
            },
    {
        let ghost b = buffer@;
        let len = buffer.len();
        match read_be_u32(buffer, 0) {
            Err(e) => {
                return Err(DeviceTreeError::SliceReadError(e));
            },
            Ok(magic) => {
                if magic != MAGIC_NUMBER {
                    return Err(DeviceTreeError::InvalidMagicNumber);
                }
            },
        }
        // Check the total size.
        match read_be_u32(buffer, 4) {
            Err(e) => {
                return Err(DeviceTreeError::SliceReadError(e));
            },
            Ok(total) => {
                if total as usize != len {
                    return Err(DeviceTreeError::SizeMismatch);
                }
            },
        }
        // Check the version.
        let version = match read_be_u32(buffer, 20) {
            Err(e) => {
                return Err(DeviceTreeError::SliceReadError(e));
            },
            Ok(version) => version,
        };
        if version != SUPPORTED_VERSION {
            return Err(DeviceTreeError::VersionNotSupported);
        }
        let off_dt_struct = match read_be_u32(buffer, 8) {
            Err(e) => {
                return Err(DeviceTreeError::SliceReadError(e));
            },
            Ok(offset) => offset as usize,
        };
        let off_dt_strings = match read_be_u32(buffer, 12) {
            Err(e) => {
                return Err(DeviceTreeError::SliceReadError(e));
            },
            Ok(offset) => offset as usize,
        };
        let off_mem_rsvmap = match read_be_u32(buffer, 16) {
            Err(e) => {
                return Err(DeviceTreeError::SliceReadError(e));
            },
            Ok(offset) => offset as usize,
        };
        let boot_cpuid_phys = match read_be_u32(buffer, 28) {
            Err(e) => {
                return Err(DeviceTreeError::SliceReadError(e));
            },
            Ok(cpu) => cpu,
        };
        // Load the list of reserved memory.
        let mut reserved: Vec<(u64, u64)> = Vec::new();
        let mut pos = off_mem_rsvmap;
        proof {
            lemma_regions_after_none(parse_reserved(b, pos as int));
        }
        loop
            invariant_except_break
                parse_reserved(b, off_mem_rsvmap as int) == regions_after(
                    reserved@,
                    parse_reserved(b, pos as int),
                ),
            invariant
                b == buffer@,
                len == b.len(),
                in_buffer(b, 28, 4),
                spec_be_u32(b, 0) == MAGIC_NUMBER,
                spec_be_u32(b, 4) == b.len(),
                spec_be_u32(b, 20) == SUPPORTED_VERSION,
                off_mem_rsvmap == spec_be_u32(b, 16),
            ensures
                parse_reserved(b, off_mem_rsvmap as int) == Ok::<Seq<(u64, u64)>, DeviceTreeError>(
                    reserved@,
                ),
            decreases b.len() - pos,
        {
            let offset = match read_be_u64(buffer, pos) {
                Err(e) => {
                    return Err(DeviceTreeError::SliceReadError(e));
                },
                Ok(offset) => offset,
            };
            let size = match read_be_u64(buffer, pos + 8) {
                Err(e) => {
                    return Err(DeviceTreeError::SliceReadError(e));
                },
                Ok(size) => size,
            };
            proof {
                lemma_regions_after_one(
                    reserved@,
                    (offset, size),
                    parse_reserved(b, pos + 16),
                );
            }
            reserved.push((offset, size));
            pos = pos + 16;
            if size == 0 {
                break ;
            }
        }
        let root = match Node::load(buffer, off_dt_struct, off_dt_strings) {
            Err(e) => {
                return Err(e);
            },
            Ok((_, root)) => root,
        };
        Ok(DeviceTree { version, boot_cpuid_phys, reserved, root })
    }

    /// The node that the path `path` leads to, which starts with a slash
    /// for the root node and goes on with the names of the nodes on the
    /// way with slashes between them.
    pub fn find<'a>(&'a self, path: &str) -> (r: Option<&'a Node>)
        ensures
            match r {
                Some(node) => spec_find_root(self.root, encode_utf8(path@)) == Some(*node),
                None => spec_find_root(self.root, encode_utf8(path@)) is None,
            },
    {
        let bytes = path.as_bytes();
        // We only find nodes from the root of the device tree.
        if bytes.len() == 0 || bytes[0] != 0x2f {
            return None;
        }
        self.root.find_bytes(slice_subrange(bytes, 1, bytes.len()))
    }
}

/// The node that the path `path` leads to from the root node `root`:
/// the path starts with a slash.
pub open spec fn spec_find_root(root: Node, path: Seq<u8>) -> Option<Node> {
    if path.len() == 0 || path[0] != 0x2f {
        None
    } else {
        spec_find(root, path.subrange(1, path.len() as int))
    }
}

} // verus!
