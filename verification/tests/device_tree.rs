use kernel::device_tree::util::{
    bytes_eq, read_be_u32, read_be_u64, read_bstring0, subslice, SliceReadError,
};
use kernel::device_tree::{DeviceTree, DeviceTreeError, Node, PropError};

/// Builds the binary form of a device tree.
struct Blob {
    structs: Vec<u8>,
    strings: Vec<u8>,
}

fn be32(out: &mut Vec<u8>, value: u32) {
    out.extend_from_slice(&value.to_be_bytes());
}

fn be64(out: &mut Vec<u8>, value: u64) {
    out.extend_from_slice(&value.to_be_bytes());
}

fn pad4(out: &mut Vec<u8>) {
    while out.len() % 4 != 0 {
        out.push(0);
    }
}

impl Blob {
    fn new() -> Blob {
        Blob { structs: Vec::new(), strings: Vec::new() }
    }

    fn begin(&mut self, name: &[u8]) {
        be32(&mut self.structs, 1);
        self.structs.extend_from_slice(name);
        self.structs.push(0);
        pad4(&mut self.structs);
    }

    fn prop(&mut self, name: &[u8], value: &[u8]) {
        let offset = self.strings.len();
        self.strings.extend_from_slice(name);
        self.strings.push(0);
        be32(&mut self.structs, 3);
        be32(&mut self.structs, value.len() as u32);
        be32(&mut self.structs, offset as u32);
        self.structs.extend_from_slice(value);
        pad4(&mut self.structs);
    }

    fn end(&mut self) {
        be32(&mut self.structs, 2);
    }

    fn finish(&self, reserved: &[(u64, u64)], version: u32) -> Vec<u8> {
        let rsvmap = 40;
        let off_struct = rsvmap + 16 * (reserved.len() + 1);
        let off_strings = off_struct + self.structs.len();
        let total = off_strings + self.strings.len();
        let mut out = Vec::new();
        be32(&mut out, 0xd00dfeed);
        be32(&mut out, total as u32);
        be32(&mut out, off_struct as u32);
        be32(&mut out, off_strings as u32);
        be32(&mut out, rsvmap as u32);
        be32(&mut out, version);
        be32(&mut out, 16);
        be32(&mut out, 3);
        be32(&mut out, self.strings.len() as u32);
        be32(&mut out, self.structs.len() as u32);
        for (address, size) in reserved {
            be64(&mut out, *address);
            be64(&mut out, *size);
        }
        be64(&mut out, 0);
        be64(&mut out, 0);
        out.extend_from_slice(&self.structs);
        out.extend_from_slice(&self.strings);
        out
    }
}

fn sample() -> Blob {
    let mut blob = Blob::new();
    blob.begin(b"");
    blob.prop(b"compatible", b"riscv-virtio\0");
    blob.prop(b"#address-cells", &[0, 0, 0, 2]);
    blob.begin(b"memory@80000000");
    blob.prop(b"device_type", b"memory\0");
    blob.prop(b"reg", &[0, 0, 0, 0, 0x80, 0, 0, 0, 0, 0, 0, 0, 0x08, 0, 0, 0]);
    blob.end();
    blob.begin(b"soc");
    blob.begin(b"uart@10000000");
    blob.prop(b"reg", &[0x10, 0, 0, 0]);
    blob.end();
    blob.begin(b"uart@10000000");
    blob.prop(b"reg", &[0x20, 0, 0, 0]);
    blob.end();
    blob.end();
    blob.end();
    blob
}

#[test]
fn load_reads_header_reservations_and_nodes() {
    let bytes = sample().finish(&[(0x8000_0000, 0x20_0000)], 17);
    let tree = DeviceTree::load(&bytes).unwrap();
    assert_eq!(tree.version, 17);
    assert_eq!(tree.boot_cpuid_phys, 3);
    assert_eq!(tree.reserved, vec![(0x8000_0000, 0x20_0000), (0, 0)]);
    assert_eq!(tree.root.name, "");
    assert_eq!(tree.root.props.len(), 2);
    assert_eq!(tree.root.props[0].0, "compatible");
    assert_eq!(tree.root.props[0].1, b"riscv-virtio\0".to_vec());
    assert_eq!(tree.root.props[1].0, "#address-cells");
    assert_eq!(tree.root.children.len(), 2);
    assert_eq!(tree.root.children[0].name, "memory@80000000");
    assert_eq!(tree.root.children[0].props[1].1.len(), 16);
    assert_eq!(tree.root.children[1].name, "soc");
    assert_eq!(tree.root.children[1].children.len(), 2);
    assert!(tree.root.children[1].props.is_empty());
}

#[test]
fn load_reads_reservations_up_to_the_first_empty_one() {
    let bytes = sample().finish(&[(1, 2), (3, 4), (5, 6)], 17);
    let tree = DeviceTree::load(&bytes).unwrap();
    assert_eq!(tree.reserved, vec![(1, 2), (3, 4), (5, 6), (0, 0)]);
    // A region of no length ends the list, whatever follows.
    let bytes = sample().finish(&[(1, 2), (3, 0), (5, 6)], 17);
    let tree = DeviceTree::load(&bytes).unwrap();
    assert_eq!(tree.reserved, vec![(1, 2), (3, 0)]);
}

#[test]
fn find_follows_the_path_from_the_root() {
    let bytes = sample().finish(&[], 17);
    let tree = DeviceTree::load(&bytes).unwrap();
    assert_eq!(tree.find("/").unwrap().name, "");
    assert_eq!(tree.find("/memory@80000000").unwrap().name, "memory@80000000");
    assert_eq!(tree.find("/soc").unwrap().children.len(), 2);
    // The first of two nodes of one name is found.
    let uart = tree.find("/soc/uart@10000000").unwrap();
    assert_eq!(uart.prop_u32("reg"), Ok(0x1000_0000));
    // A slash at the end changes nothing.
    assert_eq!(tree.find("/soc/").unwrap().name, "soc");
    assert!(tree.find("/soc/uart").is_none());
    assert!(tree.find("/cpus").is_none());
    assert!(tree.find("/cpus/cpu@0").is_none());
    // Paths start at the root.
    assert!(tree.find("soc").is_none());
    assert!(tree.find("").is_none());
    // From a node the path starts with the name of a child.
    let soc = tree.root.find("soc").unwrap();
    assert_eq!(soc.find("").unwrap().name, "soc");
    assert_eq!(soc.find("uart@10000000").unwrap().prop_u32("reg"), Ok(0x1000_0000));
    assert!(soc.find("/uart@10000000").is_none());
}

#[test]
fn properties_are_found_by_name() {
    let bytes = sample().finish(&[], 17);
    let tree = DeviceTree::load(&bytes).unwrap();
    let root = &tree.root;
    assert!(root.has_prop("compatible"));
    assert!(!root.has_prop("compat"));
    assert!(!root.has_prop("reg"));
    assert_eq!(root.prop_len("compatible"), 13);
    assert_eq!(root.prop_len("#address-cells"), 4);
    assert_eq!(root.prop_len("missing"), 0);
    assert_eq!(root.prop_raw("#address-cells"), Some(&vec![0, 0, 0, 2]));
    assert_eq!(root.prop_raw("missing"), None);
    assert_eq!(root.prop_str("compatible"), Ok("riscv-virtio"));
    assert_eq!(root.prop_u32("#address-cells"), Ok(2));
    let memory = tree.find("/memory@80000000").unwrap();
    assert_eq!(memory.prop_str("device_type"), Ok("memory"));
    assert_eq!(memory.prop_u64("reg"), Ok(0x8000_0000));
    assert_eq!(memory.prop_u64_at("reg", 8), Ok(0x800_0000));
    assert_eq!(memory.prop_u32_at("reg", 4), Ok(0x8000_0000));
    assert_eq!(memory.prop_u32_at("reg", 12), Ok(0x800_0000));
}

#[test]
fn properties_give_each_error() {
    let mut blob = Blob::new();
    blob.begin(b"");
    blob.prop(b"text", b"abc\0");
    blob.prop(b"open", b"abc");
    blob.prop(b"empty", b"");
    blob.prop(b"bad", &[0xff, 0xfe, 0]);
    blob.prop(b"short", &[1, 2, 3]);
    blob.end();
    let bytes = blob.finish(&[], 17);
    let tree = DeviceTree::load(&bytes).unwrap();
    let root = &tree.root;
    assert_eq!(root.prop_str("text"), Ok("abc"));
    assert_eq!(root.prop_str("none"), Err(PropError::NotFound));
    assert_eq!(root.prop_str("open"), Err(PropError::Missing0));
    assert_eq!(root.prop_str("empty"), Err(PropError::Missing0));
    assert_eq!(root.prop_str("bad"), Err(PropError::Utf8Error));
    assert_eq!(root.prop_u32("none"), Err(PropError::NotFound));
    assert_eq!(
        root.prop_u32("short"),
        Err(PropError::SliceReadError(SliceReadError::UnexpectedEndOfInput))
    );
    assert_eq!(
        root.prop_u64("text"),
        Err(PropError::SliceReadError(SliceReadError::UnexpectedEndOfInput))
    );
    assert_eq!(root.prop_u64_at("none", 0), Err(PropError::NotFound));
    assert_eq!(
        root.prop_u32_at("text", 1),
        Err(PropError::SliceReadError(SliceReadError::UnexpectedEndOfInput))
    );
    assert_eq!(root.prop_u32_at("text", 0), Ok(0x6162_6300));
}

fn end_of_input() -> DeviceTreeError {
    DeviceTreeError::SliceReadError(SliceReadError::UnexpectedEndOfInput)
}

#[test]
fn load_rejects_a_bad_header() {
    let good = sample().finish(&[], 17);
    assert!(DeviceTree::load(&good).is_ok());
    assert_eq!(DeviceTree::load(&[]).unwrap_err(), end_of_input());
    assert_eq!(DeviceTree::load(&good[..3]).unwrap_err(), end_of_input());
    let mut bad = good.clone();
    bad[3] = 0xee;
    assert_eq!(DeviceTree::load(&bad).unwrap_err(), DeviceTreeError::InvalidMagicNumber);
    // The magic number alone is not enough to tell the size.
    assert_eq!(DeviceTree::load(&good[..4]).unwrap_err(), end_of_input());
    // A buffer with bytes behind the tree, or with too few.
    let mut long = good.clone();
    long.push(0);
    assert_eq!(DeviceTree::load(&long).unwrap_err(), DeviceTreeError::SizeMismatch);
    assert_eq!(
        DeviceTree::load(&good[..good.len() - 1]).unwrap_err(),
        DeviceTreeError::SizeMismatch
    );
    let old = sample().finish(&[], 16);
    assert_eq!(DeviceTree::load(&old).unwrap_err(), DeviceTreeError::VersionNotSupported);
    // A header that says it is all there is.
    let mut header = good[..24].to_vec();
    header[7] = 24;
    header[4] = 0;
    header[5] = 0;
    header[6] = 0;
    assert_eq!(DeviceTree::load(&header).unwrap_err(), end_of_input());
}

#[test]
fn load_rejects_bad_tokens_and_names() {
    // The block of nodes starts with something else than a node.
    let mut blob = Blob::new();
    blob.end();
    let bytes = blob.finish(&[], 17);
    assert_eq!(DeviceTree::load(&bytes).unwrap_err(), DeviceTreeError::ParseError(56));
    // A node that is not closed: a token that is none stands in place
    // of the closing one.
    let mut blob = Blob::new();
    blob.begin(b"");
    blob.begin(b"a");
    blob.end();
    be32(&mut blob.structs, 9);
    let bytes = blob.finish(&[], 17);
    assert_eq!(DeviceTree::load(&bytes).unwrap_err(), DeviceTreeError::ParseError(56 + 8 + 12));
    // The buffer ends inside a node.
    let mut blob = Blob::new();
    blob.begin(b"");
    blob.begin(b"a");
    blob.end();
    let bytes = blob.finish(&[], 17);
    assert_eq!(DeviceTree::load(&bytes).unwrap_err(), end_of_input());
    // Names that are no text.
    let mut blob = Blob::new();
    blob.begin(&[0xc3, 0x28]);
    blob.end();
    let bytes = blob.finish(&[], 17);
    assert_eq!(DeviceTree::load(&bytes).unwrap_err(), DeviceTreeError::Utf8Error);
    let mut blob = Blob::new();
    blob.begin(b"");
    blob.prop(&[0xff], b"x");
    blob.end();
    let bytes = blob.finish(&[], 17);
    assert_eq!(DeviceTree::load(&bytes).unwrap_err(), DeviceTreeError::Utf8Error);
    // Names of more than one byte for a letter are text.
    let mut blob = Blob::new();
    blob.begin("k\u{e4}se".as_bytes());
    blob.end();
    let bytes = blob.finish(&[], 17);
    assert_eq!(DeviceTree::load(&bytes).unwrap().root.name, "k\u{e4}se");
}

#[test]
fn load_rejects_values_and_names_outside_the_buffer() {
    // A value that is longer than what is left of the buffer.
    let mut blob = Blob::new();
    blob.begin(b"");
    blob.prop(b"p", &[1, 2, 3, 4]);
    blob.end();
    let mut bytes = blob.finish(&[], 17);
    // The length of the value stands behind the token of the property.
    bytes[56 + 8 + 4 + 3] = 0xff;
    assert_eq!(DeviceTree::load(&bytes).unwrap_err(), end_of_input());
    // A name that starts behind the table of names.
    let mut bytes = blob.finish(&[], 17);
    bytes[56 + 8 + 8 + 3] = 0xff;
    assert_eq!(DeviceTree::load(&bytes).unwrap_err(), end_of_input());
    // A list of reservations without an end.
    let mut bytes = blob.finish(&[], 17);
    bytes[19] = (bytes.len() - 8) as u8;
    assert_eq!(DeviceTree::load(&bytes).unwrap_err(), end_of_input());
}

#[test]
fn node_load_gives_the_position_behind_the_node() {
    let mut blob = Blob::new();
    blob.begin(b"abc");
    blob.prop(b"p", &[1, 2, 3, 4, 5]);
    blob.end();
    let bytes = blob.finish(&[], 17);
    let strings = 56 + blob.structs.len();
    let (end, node) = Node::load(&bytes, 56, strings).unwrap();
    // A token, a name of three letters and the zero byte, a property of
    // three numbers and eight bytes of value with padding, a token.
    assert_eq!(end, 56 + 4 + 4 + 12 + 8 + 4);
    assert_eq!(node.name, "abc");
    assert_eq!(node.props, vec![("p".to_string(), vec![1, 2, 3, 4, 5])]);
    assert!(node.children.is_empty());
    assert_eq!(Node::load(&bytes, 60, strings).unwrap_err(), DeviceTreeError::ParseError(60));
}

#[test]
fn numbers_are_read_most_significant_byte_first() {
    let bytes = [0x01, 0x02, 0x03, 0x04, 0x05, 0x06, 0x07, 0x08, 0xff];
    assert_eq!(read_be_u32(&bytes, 0), Ok(0x0102_0304));
    assert_eq!(read_be_u32(&bytes, 5), Ok(0x0607_08ff));
    assert_eq!(read_be_u32(&bytes, 6), Err(SliceReadError::UnexpectedEndOfInput));
    assert_eq!(read_be_u32(&bytes, usize::MAX), Err(SliceReadError::UnexpectedEndOfInput));
    assert_eq!(read_be_u64(&bytes, 0), Ok(0x0102_0304_0506_0708));
    assert_eq!(read_be_u64(&bytes, 1), Ok(0x0203_0405_0607_08ff));
    assert_eq!(read_be_u64(&bytes, 2), Err(SliceReadError::UnexpectedEndOfInput));
    assert_eq!(read_be_u32(&[0xff, 0xff, 0xff, 0xff], 0), Ok(u32::MAX));
    assert_eq!(read_be_u64(&[0xff; 8], 0), Ok(u64::MAX));
}

#[test]
fn strings_end_at_the_first_zero_byte() {
    let bytes = [b'a', b'b', 0, b'c', 0, b'd'];
    assert_eq!(read_bstring0(&bytes, 0), Ok(&b"ab"[..]));
    assert_eq!(read_bstring0(&bytes, 1), Ok(&b"b"[..]));
    assert_eq!(read_bstring0(&bytes, 2), Ok(&b""[..]));
    assert_eq!(read_bstring0(&bytes, 3), Ok(&b"c"[..]));
    assert_eq!(read_bstring0(&bytes, 5), Err(SliceReadError::UnexpectedEndOfInput));
    assert_eq!(read_bstring0(&bytes, 6), Err(SliceReadError::UnexpectedEndOfInput));
    assert_eq!(read_bstring0(&bytes, 60), Err(SliceReadError::UnexpectedEndOfInput));
}

#[test]
fn ranges_of_a_buffer_lie_inside_it() {
    let bytes = [1, 2, 3, 4];
    assert_eq!(subslice(&bytes, 1, 3), Ok(&[2u8, 3][..]));
    assert_eq!(subslice(&bytes, 0, 4), Ok(&bytes[..]));
    assert_eq!(subslice(&bytes, 4, 4), Ok(&[][..]));
    assert_eq!(subslice(&bytes, 3, 5), Err(SliceReadError::UnexpectedEndOfInput));
    assert_eq!(subslice(&bytes, 3, 2), Err(SliceReadError::UnexpectedEndOfInput));
    assert!(bytes_eq(&bytes, &[1, 2, 3, 4]));
    assert!(!bytes_eq(&bytes, &[1, 2, 3]));
    assert!(!bytes_eq(&bytes, &[1, 2, 3, 5]));
    assert!(bytes_eq(&[], &[]));
}
