use kernel::device_tree::{DeviceTree, Node};
use kernel::defines::KernelLayout;
use kernel::errors::ErrNO;
use kernel::platform::boot_reserve::{boot_reserve_add_range, boot_reserve_can_add, MAX_RESERVES};
use kernel::platform::periphmap::{add_periph_range, PeriphRange, MAX_PERIPH_RANGES};
use kernel::platform::{
    add_memory_arch, add_reserved_memory_arch, early_init_dt_load, early_init_dt_scan,
    early_init_dt_scan_chosen, early_init_dt_scan_memory, early_init_dt_scan_root,
    early_init_dt_verify, early_scan_reserved_mem, init_mem_config_arch, parse_reg, ZBIMemRange,
    ZBIMemRangeType,
};

/// Builds the binary form of a device tree.
struct Blob {
    structs: Vec<u8>,
    strings: Vec<u8>,
}

fn be32(out: &mut Vec<u8>, value: u32) {
    out.extend_from_slice(&value.to_be_bytes());
}

fn be64(out: &mut Vec<u8>, value: u64) {
    out.extend_from_slice(&value.to_be_bytes());
}

fn pad4(out: &mut Vec<u8>) {
    while out.len() % 4 != 0 {
        out.push(0);
    }
}

impl Blob {
    fn new() -> Blob {
        Blob { structs: Vec::new(), strings: Vec::new() }
    }

    fn begin(&mut self, name: &[u8]) {
        be32(&mut self.structs, 1);
        self.structs.extend_from_slice(name);
        self.structs.push(0);
        pad4(&mut self.structs);
    }

    fn prop(&mut self, name: &[u8], value: &[u8]) {
        let offset = self.strings.len();
        self.strings.extend_from_slice(name);
        self.strings.push(0);
        be32(&mut self.structs, 3);
        be32(&mut self.structs, value.len() as u32);
        be32(&mut self.structs, offset as u32);
        self.structs.extend_from_slice(value);
        pad4(&mut self.structs);
    }

    fn end(&mut self) {
        be32(&mut self.structs, 2);
    }

    fn finish(&self, reserved: &[(u64, u64)], version: u32) -> Vec<u8> {
        let rsvmap = 40;
        let off_struct = rsvmap + 16 * (reserved.len() + 1);
        let off_strings = off_struct + self.structs.len();
        let total = off_strings + self.strings.len();
        let mut out = Vec::new();
        be32(&mut out, 0xd00dfeed);
        be32(&mut out, total as u32);
        be32(&mut out, off_struct as u32);
        be32(&mut out, off_strings as u32);
        be32(&mut out, rsvmap as u32);
        be32(&mut out, version);
        be32(&mut out, 16);
        be32(&mut out, 3);
        be32(&mut out, self.strings.len() as u32);
        be32(&mut out, self.structs.len() as u32);
        for (address, size) in reserved {
            be64(&mut out, *address);
            be64(&mut out, *size);
        }
        be64(&mut out, 0);
        be64(&mut out, 0);
        out.extend_from_slice(&self.structs);
        out.extend_from_slice(&self.strings);
        out
    }
}

fn cells(values: &[u32]) -> Vec<u8> {
    let mut out = Vec::new();
    for value in values {
        be32(&mut out, *value);
    }
    out
}

/// A tree with two nodes of memory, a node that is none, and two
/// reserved regions; addresses and sizes have two cells each.
fn board() -> Vec<u8> {
    let mut blob = Blob::new();
    blob.begin(b"");
    blob.prop(b"#address-cells", &cells(&[2]));
    blob.prop(b"#size-cells", &cells(&[2]));
    blob.begin(b"memory@80000000");
    blob.prop(b"device_type", b"memory\0");
    blob.prop(b"reg", &cells(&[0, 0x8000_0000, 0, 0x0800_0000]));
    blob.end();
    blob.begin(b"cpus");
    blob.prop(b"device_type", b"cpu\0");
    blob.prop(b"reg", &cells(&[0, 1, 0, 2]));
    blob.end();
    blob.begin(b"memory@100000000");
    blob.prop(b"device_type", b"memory\0");
    blob.prop(b"reg", &cells(&[1, 0, 0, 0x1000, 1, 0x1000, 0, 0, 1, 0x2000, 0, 0x3000]));
    blob.end();
    blob.begin(b"reserved-memory");
    blob.begin(b"mmode@80000000");
    blob.prop(b"reg", &cells(&[0, 0x8000_0000, 0, 0x2_0000]));
    blob.end();
    blob.begin(b"empty");
    blob.end();
    blob.begin(b"pool");
    blob.prop(b"reg", &cells(&[0, 0x8700_0000, 0, 0x10_0000]));
    blob.end();
    blob.end();
    blob.begin(b"chosen");
    blob.prop(b"bootargs", b"console=ttyS0\0");
    blob.prop(b"linux,initrd-start", &cells(&[0x8200_0000]));
    blob.prop(b"linux,initrd-end", &cells(&[0x8280_0000]));
    blob.end();
    blob.end();
    blob.finish(&[], 17)
}

fn ram(paddr: usize, length: usize) -> ZBIMemRange {
    ZBIMemRange { mtype: ZBIMemRangeType::RAM, paddr, length, reserved: 0 }
}

fn reserved(paddr: usize, length: usize) -> ZBIMemRange {
    ZBIMemRange { mtype: ZBIMemRangeType::RESERVED, paddr, length, reserved: 0 }
}

fn node_with_reg(reg: &[u8]) -> Node {
    Node { name: String::new(), props: vec![("reg".to_string(), reg.to_vec())], children: Vec::new() }
}

#[test]
fn verify_tells_a_missing_tree_from_a_bad_one() {
    assert_eq!(early_init_dt_verify(&[]), Err(ErrNO::NoDTB));
    assert_eq!(early_init_dt_verify(&[0xd0, 0x0d, 0xfe]), Err(ErrNO::BadDTB));
    assert_eq!(early_init_dt_verify(&[0xd0, 0x0d, 0xfe, 0xee]), Err(ErrNO::BadDTB));
    assert_eq!(early_init_dt_verify(&[0xd0, 0x0d, 0xfe, 0xed]), Ok(()));
    assert_eq!(early_init_dt_verify(&board()), Ok(()));
}

#[test]
fn load_takes_as_many_bytes_as_the_header_says() {
    let mut memory = board();
    let size = memory.len();
    assert_eq!(early_init_dt_load(&memory).unwrap().version, 17);
    // What lies behind the tree does not count.
    memory.extend_from_slice(&[0xaa; 100]);
    let tree = early_init_dt_load(&memory).unwrap();
    assert_eq!(tree.root.children.len(), 5);
    // The memory must hold the whole tree.
    assert_eq!(early_init_dt_load(&memory[..size - 1]).unwrap_err(), ErrNO::BadDTB);
    assert_eq!(early_init_dt_load(&memory[..6]).unwrap_err(), ErrNO::BadDTB);
    assert_eq!(early_init_dt_load(&[]).unwrap_err(), ErrNO::NoDTB);
    // A tree of another version is refused.
    let old = Blob::new().finish(&[], 16);
    assert_eq!(early_init_dt_load(&old).unwrap_err(), ErrNO::BadDTB);
    let mut bad = board();
    bad[0] = 0;
    assert_eq!(early_init_dt_load(&bad).unwrap_err(), ErrNO::BadDTB);
}

#[test]
fn root_gives_the_numbers_of_cells() {
    let tree = DeviceTree::load(&board()).unwrap();
    assert_eq!(early_init_dt_scan_root(&tree), (2, 2));
    // Each is one where the root node does not say.
    let mut blob = Blob::new();
    blob.begin(b"");
    blob.prop(b"#size-cells", &cells(&[2]));
    blob.end();
    let tree = DeviceTree::load(&blob.finish(&[], 17)).unwrap();
    assert_eq!(early_init_dt_scan_root(&tree), (1, 2));
    let mut blob = Blob::new();
    blob.begin(b"");
    blob.prop(b"#address-cells", &[0, 0, 2]);
    blob.end();
    let tree = DeviceTree::load(&blob.finish(&[], 17)).unwrap();
    assert_eq!(early_init_dt_scan_root(&tree), (1, 1));
}

#[test]
fn reg_names_ranges_of_cells() {
    let node = node_with_reg(&cells(&[0, 0x8000_0000, 0, 0x1000, 1, 2, 0, 3]));
    assert_eq!(parse_reg(&node, 2, 2), Ok(vec![(0x8000_0000, 0x1000), (0x1_0000_0002, 3)]));
    assert_eq!(
        parse_reg(&node, 1, 1),
        Ok(vec![(0, 0x8000_0000), (0, 0x1000), (1, 2), (0, 3)])
    );
    // An address of no cells is still read, from where the size stands.
    assert_eq!(
        parse_reg(&node, 0, 2),
        Ok(vec![(0, 0x8000_0000), (0, 0x1000), (1, 0x1_0000_0002), (0, 3)])
    );
    // Ranges of no size are left out.
    let node = node_with_reg(&cells(&[7, 0, 8, 1, 9, 0]));
    assert_eq!(parse_reg(&node, 1, 1), Ok(vec![(8, 1)]));
    // An address of two cells and a size of one.
    let node = node_with_reg(&cells(&[0, 5, 6, 1, 7, 8]));
    assert_eq!(parse_reg(&node, 2, 1), Ok(vec![(5, 6), (0x1_0000_0007, 8)]));
    // Other numbers of cells: four bytes are read, and all are skipped.
    let node = node_with_reg(&cells(&[1, 2, 3, 4, 5, 6]));
    assert_eq!(parse_reg(&node, 3, 3), Ok(vec![(1, 4)]));
    // No property, and an empty one.
    let bare = Node { name: String::new(), props: Vec::new(), children: Vec::new() };
    assert_eq!(parse_reg(&bare, 2, 2), Ok(vec![]));
    assert_eq!(parse_reg(&node_with_reg(&[]), 2, 2), Ok(vec![]));
}

#[test]
fn reg_that_ends_inside_a_range_is_refused() {
    let node = node_with_reg(&cells(&[0, 0x8000_0000, 0]));
    assert_eq!(parse_reg(&node, 2, 2), Err(ErrNO::BadDTB));
    assert_eq!(parse_reg(&node, 2, 1), Ok(vec![]));
    assert_eq!(parse_reg(&node, 1, 1), Err(ErrNO::BadDTB));
    let node = node_with_reg(&[1, 2, 3]);
    assert_eq!(parse_reg(&node, 1, 1), Err(ErrNO::BadDTB));
    // Ranges without a byte never end.
    let node = node_with_reg(&cells(&[1, 2]));
    assert_eq!(parse_reg(&node, 0, 0), Err(ErrNO::BadDTB));
    assert_eq!(parse_reg(&node_with_reg(&[]), 0, 0), Ok(vec![]));
}

#[test]
fn memory_is_what_the_nodes_of_memory_and_the_reservations_name() {
    let tree = DeviceTree::load(&board()).unwrap();
    let expected = vec![
        ram(0x8000_0000, 0x0800_0000),
        ram(0x1_0000_0000, 0x1000),
        ram(0x1_0000_2000, 0x3000),
        reserved(0x8000_0000, 0x2_0000),
        reserved(0x8700_0000, 0x10_0000),
    ];
    assert_eq!(early_init_dt_scan_memory(&tree, 2, 2), Ok(expected.clone()));
    assert_eq!(early_init_dt_scan(&tree), Ok(expected));
    // With other numbers of cells the same bytes name other ranges.
    assert_eq!(
        early_init_dt_scan_memory(&tree, 1, 1).unwrap()[..3],
        [ram(0, 0x8000_0000), ram(0, 0x0800_0000), ram(0, 0x1000)]
    );
    let mut config = vec![ram(1, 2)];
    assert_eq!(early_scan_reserved_mem(&tree, &mut config, 2, 2), Ok(()));
    assert_eq!(
        config,
        vec![ram(1, 2), reserved(0x8000_0000, 0x2_0000), reserved(0x8700_0000, 0x10_0000)]
    );
}

#[test]
fn memory_needs_the_node_of_the_reservations() {
    let mut blob = Blob::new();
    blob.begin(b"");
    blob.begin(b"memory");
    blob.prop(b"device_type", b"memory\0");
    blob.prop(b"reg", &cells(&[0x8000_0000, 0x1000]));
    blob.end();
    blob.end();
    let tree = DeviceTree::load(&blob.finish(&[], 17)).unwrap();
    assert_eq!(early_init_dt_scan_memory(&tree, 1, 1), Err(ErrNO::BadDTB));
    assert_eq!(early_init_dt_scan(&tree), Err(ErrNO::BadDTB));
    let mut config = Vec::new();
    assert_eq!(early_scan_reserved_mem(&tree, &mut config, 1, 1), Err(ErrNO::BadDTB));
    // With it, and no region below it, the memory is all there is.
    let mut blob = Blob::new();
    blob.begin(b"");
    blob.begin(b"memory");
    blob.prop(b"device_type", b"memory\0");
    blob.prop(b"reg", &cells(&[0x8000_0000, 0x1000]));
    blob.end();
    blob.begin(b"other");
    blob.prop(b"device_type", b"memory");
    blob.prop(b"reg", &cells(&[0x9000_0000, 0x1000]));
    blob.end();
    blob.begin(b"reserved-memory");
    blob.end();
    blob.end();
    let tree = DeviceTree::load(&blob.finish(&[], 17)).unwrap();
    assert_eq!(early_init_dt_scan(&tree), Ok(vec![ram(0x8000_0000, 0x1000)]));
    // A node of memory with a bad property spoils the scan.
    assert_eq!(early_init_dt_scan_memory(&tree, 2, 1), Err(ErrNO::BadDTB));
}

#[test]
fn chosen_gives_the_command_line_and_the_ramdisk() {
    let tree = DeviceTree::load(&board()).unwrap();
    assert_eq!(
        early_init_dt_scan_chosen(&tree),
        Ok(("console=ttyS0", Some((0x8200_0000, 0x8280_0000))))
    );
    // The node may have another name; the ramdisk needs both numbers.
    let mut blob = Blob::new();
    blob.begin(b"");
    blob.begin(b"chosen@0");
    blob.prop(b"linux,initrd-start", &cells(&[0x8200_0000]));
    blob.prop(b"bootargs", b"quiet\0");
    blob.end();
    blob.end();
    let tree = DeviceTree::load(&blob.finish(&[], 17)).unwrap();
    assert_eq!(early_init_dt_scan_chosen(&tree), Ok(("quiet", None)));
    // No node, no command line.
    let mut blob = Blob::new();
    blob.begin(b"");
    blob.end();
    let tree = DeviceTree::load(&blob.finish(&[], 17)).unwrap();
    assert_eq!(early_init_dt_scan_chosen(&tree), Ok(("", None)));
    // A command line that does not end, and numbers that are too short.
    let mut blob = Blob::new();
    blob.begin(b"");
    blob.begin(b"chosen");
    blob.prop(b"bootargs", b"quiet");
    blob.end();
    blob.end();
    let tree = DeviceTree::load(&blob.finish(&[], 17)).unwrap();
    assert_eq!(early_init_dt_scan_chosen(&tree), Ok(("", None)));
    let mut blob = Blob::new();
    blob.begin(b"");
    blob.begin(b"chosen");
    blob.prop(b"linux,initrd-start", &cells(&[0x8200_0000]));
    blob.prop(b"linux,initrd-end", &[0x82, 0x80]);
    blob.end();
    blob.end();
    let tree = DeviceTree::load(&blob.finish(&[], 17)).unwrap();
    assert_eq!(early_init_dt_scan_chosen(&tree), Err(ErrNO::BadDTB));
}

#[test]
fn ranges_are_added_with_their_type() {
    let mut config = Vec::new();
    add_memory_arch(&mut config, 0x8000_0000, 0x1000);
    add_reserved_memory_arch(&mut config, 0x9000_0000, 0x2000);
    init_mem_config_arch(&mut config);
    assert_eq!(
        config,
        vec![
            ram(0x8000_0000, 0x1000),
            reserved(0x9000_0000, 0x2000),
            ZBIMemRange { mtype: ZBIMemRangeType::PERIPHERAL, paddr: 0, length: 0x4000_0000, reserved: 0 },
        ]
    );
    assert_eq!(ZBIMemRange::new(ZBIMemRangeType::RAM, 1, 2), ram(1, 2));
}

fn layout(kernel_base_virt: usize) -> KernelLayout {
    KernelLayout {
        kernel_base_phys: 0x8020_0000,
        kernel_base_virt,
        kernel_size: 0x40_0000,
        periph_tables_start: 0,
        periph_tables_end: 0,
        physmap_base: 0,
        physmap_size: 0,
    }
}

#[test]
fn registers_are_mapped_one_range_below_the_other() {
    let l = layout(0xc000_0000);
    let mut ranges = Vec::new();
    assert_eq!(add_periph_range(&mut ranges, &l, 0x1000_0000, 0x1000), Ok(()));
    assert_eq!(add_periph_range(&mut ranges, &l, 0x2000_0000, 0x2_0000), Ok(()));
    assert_eq!(
        ranges,
        vec![
            PeriphRange { base_phys: 0x1000_0000, base_virt: 0x8000_0000 - 0x1000, length: 0x1000 },
            PeriphRange {
                base_phys: 0x2000_0000,
                base_virt: 0x8000_0000 - 0x1000 - 0x2_0000,
                length: 0x2_0000
            },
        ]
    );
    // Ranges are aligned to pages.
    assert_eq!(add_periph_range(&mut ranges, &l, 0x3000_0800, 0x1000), Err(ErrNO::BadAlign));
    assert_eq!(add_periph_range(&mut ranges, &l, 0x3000_0000, 0x800), Err(ErrNO::BadAlign));
    // There must be room below the kernel image and the gap.
    assert_eq!(add_periph_range(&mut ranges, &l, 0x3000_0000, 0x8000_0000), Err(ErrNO::OutOfRange));
    assert_eq!(ranges.len(), 2);
    assert_eq!(
        add_periph_range(&mut ranges, &l, 0x3000_0000, 0x8000_0000 - 0x2_1000),
        Ok(())
    );
    assert_eq!(ranges[2].base_virt, 0);
    assert_eq!(add_periph_range(&mut ranges, &l, 0x4000_0000, 0), Ok(()));
    assert_eq!(ranges.len(), MAX_PERIPH_RANGES);
    // No more than four ranges.
    assert_eq!(add_periph_range(&mut ranges, &l, 0x5000_0000, 0), Err(ErrNO::OutOfRange));
    let mut none = Vec::new();
    assert_eq!(
        add_periph_range(&mut none, &layout(0x3000_0000), 0x1000_0000, 0x1000),
        Err(ErrNO::OutOfRange)
    );
}

#[test]
fn reservations_that_can_join_the_table() {
    let mut res = Vec::new();
    assert!(boot_reserve_can_add(&res, 0x8020_0000, 0x40_0000));
    assert_eq!(boot_reserve_add_range(&mut res, 0x8020_0000, 0x40_0000), Ok(()));
    // A range that overlaps one of the table, and ranges that touch it.
    assert!(!boot_reserve_can_add(&res, 0x8010_0000, 0x10_0001));
    assert!(!boot_reserve_can_add(&res, 0x805f_ffff, 1));
    assert!(boot_reserve_can_add(&res, 0x8010_0000, 0x10_0000));
    assert!(boot_reserve_can_add(&res, 0x8060_0000, 1));
    // An empty range, and ranges at the end of the address space.
    assert!(!boot_reserve_can_add(&res, 0x9000_0000, 0));
    assert!(boot_reserve_can_add(&res, usize::MAX, 1));
    assert!(!boot_reserve_can_add(&res, usize::MAX, 2));
    // A table that is full.
    for i in 1..MAX_RESERVES - 2 {
        assert!(boot_reserve_can_add(&res, 0x9000_0000 + i * 0x1000, 0x1000));
        assert_eq!(boot_reserve_add_range(&mut res, 0x9000_0000 + i * 0x1000, 0x1000), Ok(()));
    }
    assert_eq!(res.len(), MAX_RESERVES - 2);
    assert!(boot_reserve_can_add(&res, 0xa000_0000, 0x1000));
    assert_eq!(boot_reserve_add_range(&mut res, 0xa000_0000, 0x1000), Ok(()));
    assert!(!boot_reserve_can_add(&res, 0xb000_0000, 0x1000));
}
