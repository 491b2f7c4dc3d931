use dtb_walker::{
    Cells, Context, ContextMeta, Dtb, Event, Property, RegCfg, SkipType, Str, StructureError,
    WalkOperation,
};

const STRINGS: &[u8] = b"#address-cells\0#size-cells\0#interrupt-cells\0reg\0compatible\0status\0";

fn stroff(name: &str) -> u32 {
    let pat = name.as_bytes();
    let mut i = 0;
    loop {
        if STRINGS[i..].starts_with(pat) && STRINGS[i + pat.len()] == 0 {
            return i as u32;
        }
        i += 1;
    }
}

fn tok(v: &mut Vec<u8>, w: u32) {
    v.extend_from_slice(&w.to_be_bytes());
}

fn begin(v: &mut Vec<u8>, name: &str) {
    tok(v, 1);
    v.extend_from_slice(name.as_bytes());
    v.push(0);
    while v.len() % 4 != 0 {
        v.push(0);
    }
}

fn end_node(v: &mut Vec<u8>) {
    tok(v, 2);
}

fn prop(v: &mut Vec<u8>, name: &str, value: &[u8]) {
    tok(v, 3);
    tok(v, value.len() as u32);
    tok(v, stroff(name));
    v.extend_from_slice(value);
    while v.len() % 4 != 0 {
        v.push(0);
    }
}

fn cells(vals: &[u32]) -> Vec<u8> {
    let mut v = Vec::new();
    for c in vals {
        v.extend_from_slice(&c.to_be_bytes());
    }
    v
}

fn assemble(stru: &[u8]) -> Vec<u8> {
    let off_struct = 48u32;
    let size_struct = stru.len() as u32;
    let off_strings = off_struct + size_struct;
    let total = off_strings + STRINGS.len() as u32;
    let mut v = Vec::new();
    for w in [
        0xd00dfeedu32,
        total,
        off_struct,
        off_strings,
        40,
        17,
        16,
        0,
        STRINGS.len() as u32,
        size_struct,
    ] {
        v.extend_from_slice(&w.to_be_bytes());
    }
    v.extend_from_slice(&[0u8; 8]);
    v.extend_from_slice(stru);
    v.extend_from_slice(STRINGS);
    v
}

/// The tree used by the ordering tests:
/// `/ { compatible = "test"; a { status = "okay"; a1 {}; a2 {}; }; b { b1 {}; }; }`.
fn tree_blob() -> Vec<u8> {
    let mut s = Vec::new();
    begin(&mut s, "");
    prop(&mut s, "compatible", b"test\0");
    begin(&mut s, "a");
    prop(&mut s, "status", b"okay\0");
    begin(&mut s, "a1");
    end_node(&mut s);
    begin(&mut s, "a2");
    end_node(&mut s);
    end_node(&mut s);
    begin(&mut s, "b");
    begin(&mut s, "b1");
    end_node(&mut s);
    end_node(&mut s);
    end_node(&mut s);
    tok(&mut s, 9);
    assemble(&s)
}

fn prop_tag(prop: &Property<'_>) -> String {
    match prop {
        Property::Compatible(_) => "compatible".to_string(),
        Property::Model(_) => "model".to_string(),
        Property::PHandle(_) => "phandle".to_string(),
        Property::Status(_) => "status".to_string(),
        Property::Reg(_) => "reg".to_string(),
        Property::VirtualReg(_) => "virtual-reg".to_string(),
        Property::DmaCoherent => "dma-coherent".to_string(),
        Property::General { name, .. } => {
            String::from_utf8(name.as_bytes().to_vec()).unwrap()
        },
    }
}

/// Enters every node and logs every event with its level.
struct Recorder {
    log: Vec<String>,
}

impl ContextMeta for Recorder {
    fn visit_node(&mut self, ctx: &Context<'_>, name: Str<'_>) -> WalkOperation<Self> {
        let name = String::from_utf8(name.as_bytes().to_vec()).unwrap();
        self.log.push(format!("node {} @{}", name, ctx.level()));
        WalkOperation::Access(Recorder { log: Vec::new() })
    }

    fn visit_prop(&mut self, ctx: &Context<'_>, prop: Property<'_>) -> SkipType {
        self.log.push(format!("prop {} @{}", prop_tag(&prop), ctx.level()));
        SkipType::StepOver
    }

    fn merge(&mut self, child: Self) {
        self.log.extend(child.log);
    }
}

#[test]
fn walk_depth_first_order_and_levels() {
    let blob = tree_blob();
    let d = Dtb::from_slice(&blob).unwrap();
    let out = d.walk(Recorder { log: Vec::new() }).0.unwrap();
    assert_eq!(
        out.log,
        vec![
            "prop compatible @0",
            "node a @0",
            "prop status @1",
            "node a1 @1",
            "node a2 @1",
            "node b @0",
            "node b1 @1",
        ]
    );
}

#[test]
fn walk_events_match_walk() {
    let blob = tree_blob();
    let d = Dtb::from_slice(&blob).unwrap();
    let events = d.events().unwrap();
    let rendered: Vec<String> = events
        .iter()
        .map(|e| match e {
            Event::Node { level, name, .. } => {
                format!("node {} @{}", String::from_utf8(name.clone()).unwrap(), level)
            },
            Event::Prop { level, name, .. } => {
                format!("prop {} @{}", String::from_utf8(name.clone()).unwrap(), level)
            },
        })
        .collect();
    assert_eq!(
        rendered,
        vec![
            "prop compatible @0",
            "node a @0",
            "prop status @1",
            "node a1 @1",
            "node a2 @1",
            "node b @0",
            "node b1 @1",
        ]
    );

    // Offsets locate each event's token: the root body starts at byte 8
    // of the structure section, and offsets strictly increase.
    let offsets: Vec<usize> = events
        .iter()
        .map(|e| match e {
            Event::Node { offset, .. } => *offset,
            Event::Prop { offset, .. } => *offset,
        })
        .collect();
    assert_eq!(offsets[0], 8);
    assert!(offsets.windows(2).all(|w| w[0] < w[1]));
}

/// Logs node entries and terminates the walk on the `limit`-th one.
struct TerminateAt {
    log: Vec<String>,
    seen: usize,
    limit: usize,
}

impl ContextMeta for TerminateAt {
    fn visit_node(&mut self, _ctx: &Context<'_>, name: Str<'_>) -> WalkOperation<Self> {
        self.seen += 1;
        self.log
            .push(String::from_utf8(name.as_bytes().to_vec()).unwrap());
        if self.seen == self.limit {
            return WalkOperation::Skip(SkipType::Terminate);
        }
        WalkOperation::Skip(SkipType::StepOver)
    }

    fn visit_prop(&mut self, _ctx: &Context<'_>, _prop: Property<'_>) -> SkipType {
        self.log.push("prop".to_string());
        SkipType::StepOver
    }
}

#[test]
fn walk_terminate_on_third_node() {
    // Five sibling nodes; terminating on the third entry leaves exactly
    // three logged entries and no later event of any kind.
    let mut s = Vec::new();
    begin(&mut s, "");
    for name in ["n1", "n2", "n3", "n4", "n5"] {
        begin(&mut s, name);
        prop(&mut s, "status", b"okay\0");
        end_node(&mut s);
    }
    end_node(&mut s);
    tok(&mut s, 9);
    let blob = assemble(&s);
    let d = Dtb::from_slice(&blob).unwrap();
    let out = d
        .walk(TerminateAt { log: Vec::new(), seen: 0, limit: 3 })
        .0
        .unwrap();
    assert_eq!(out.log, vec!["n1", "n2", "n3"]);
}

/// Enters every node, terminating the walk at the node named `target`.
struct TerminateOn {
    log: Vec<String>,
    target: &'static str,
}

impl ContextMeta for TerminateOn {
    fn visit_node(&mut self, _ctx: &Context<'_>, name: Str<'_>) -> WalkOperation<Self> {
        let name = String::from_utf8(name.as_bytes().to_vec()).unwrap();
        self.log.push(name.clone());
        if name == self.target {
            return WalkOperation::Skip(SkipType::Terminate);
        }
        WalkOperation::Access(TerminateOn { log: Vec::new(), target: self.target })
    }

    fn visit_prop(&mut self, _ctx: &Context<'_>, _prop: Property<'_>) -> SkipType {
        self.log.push("prop".to_string());
        SkipType::StepOver
    }

    fn merge(&mut self, child: Self) {
        self.log.extend(child.log);
    }
}

#[test]
fn walk_terminate_inside_subtree() {
    // Terminating on a nested node cancels the rest of the whole walk:
    // neither the sibling a2 nor the unrelated subtree b is reported.
    let blob = tree_blob();
    let d = Dtb::from_slice(&blob).unwrap();
    let out = d
        .walk(TerminateOn { log: Vec::new(), target: "a1" })
        .0
        .unwrap();
    assert_eq!(out.log, vec!["prop", "a", "prop", "a1"]);
}

/// Enters every node except `over`, which is stepped over, and `out`,
/// which steps out of its parent's body.
struct Skipper {
    log: Vec<String>,
    over: &'static str,
    out: &'static str,
}

impl ContextMeta for Skipper {
    fn visit_node(&mut self, _ctx: &Context<'_>, name: Str<'_>) -> WalkOperation<Self> {
        let name = String::from_utf8(name.as_bytes().to_vec()).unwrap();
        if name == self.over {
            self.log.push(format!("over {name}"));
            return WalkOperation::Skip(SkipType::StepOver);
        }
        if name == self.out {
            self.log.push(format!("out {name}"));
            return WalkOperation::Skip(SkipType::StepOut);
        }
        self.log.push(format!("node {name}"));
        WalkOperation::Access(Skipper { log: Vec::new(), over: self.over, out: self.out })
    }

    fn visit_prop(&mut self, _ctx: &Context<'_>, prop: Property<'_>) -> SkipType {
        self.log.push(format!("prop {}", prop_tag(&prop)));
        SkipType::StepOver
    }

    fn merge(&mut self, child: Self) {
        self.log.extend(child.log);
    }
}

#[test]
fn walk_step_over_skips_descendants_only() {
    let blob = tree_blob();
    let d = Dtb::from_slice(&blob).unwrap();
    let out = d
        .walk(Skipper { log: Vec::new(), over: "a", out: "-" })
        .0
        .unwrap();
    // Nothing under `a` is reported, but `b` and its child still are.
    assert_eq!(
        out.log,
        vec!["prop compatible", "over a", "node b", "node b1"]
    );
}

#[test]
fn walk_step_out_skips_remaining_siblings() {
    // `/ { c { c1 {}; c2 {}; c3 {}; }; d {}; }`: stepping out on c1
    // silences c2 and c3 but traversal resumes at the grandparent, so d
    // is still reported.
    let mut s = Vec::new();
    begin(&mut s, "");
    begin(&mut s, "c");
    begin(&mut s, "c1");
    end_node(&mut s);
    begin(&mut s, "c2");
    end_node(&mut s);
    begin(&mut s, "c3");
    end_node(&mut s);
    end_node(&mut s);
    begin(&mut s, "d");
    end_node(&mut s);
    end_node(&mut s);
    tok(&mut s, 9);
    let blob = assemble(&s);
    let d = Dtb::from_slice(&blob).unwrap();
    let out = d
        .walk(Skipper { log: Vec::new(), over: "-", out: "c1" })
        .0
        .unwrap();
    assert_eq!(out.log, vec!["node c", "out c1", "node d"]);
}

/// A visitor that leaves every hook at its default.
struct Lazy;

impl ContextMeta for Lazy {
}

#[test]
fn walk_default_hooks_skip_everything() {
    let blob = tree_blob();
    let d = Dtb::from_slice(&blob).unwrap();
    assert!(d.walk(Lazy).0.is_ok());
}

#[test]
fn walk_cell_inheritance() {
    // `x` overrides the configuration to one address and one size cell
    // for its children; `y` declares nothing, so its children fall back
    // to the default of two address cells and one size cell.
    let mut s = Vec::new();
    begin(&mut s, "");
    begin(&mut s, "x");
    prop(&mut s, "#address-cells", &cells(&[1]));
    prop(&mut s, "#size-cells", &cells(&[1]));
    begin(&mut s, "xc");
    prop(&mut s, "reg", &cells(&[0x1000, 0x10]));
    end_node(&mut s);
    end_node(&mut s);
    begin(&mut s, "y");
    begin(&mut s, "yc");
    prop(&mut s, "reg", &cells(&[0x0000_0000, 0x4000_0000, 0x0800_0000]));
    end_node(&mut s);
    end_node(&mut s);
    end_node(&mut s);
    tok(&mut s, 9);
    let blob = assemble(&s);
    let d = Dtb::from_slice(&blob).unwrap();

    let events = d.events().unwrap();
    let regs: Vec<(Cells, Vec<u8>)> = events
        .iter()
        .filter_map(|e| match e {
            Event::Prop { name, value, reg_cells, .. } if name.as_slice() == b"reg" => {
                Some((*reg_cells, value.clone()))
            },
            _ => None,
        })
        .collect();
    assert_eq!(regs.len(), 2);

    let (c_x, v_x) = &regs[0];
    assert_eq!((c_x.address, c_x.size), (1, 1));
    let mut reg = dtb_walker::Reg::new(
        v_x.as_slice(),
        RegCfg { address_cells: c_x.address, size_cells: c_x.size },
    )
    .unwrap();
    let range = reg.next().unwrap();
    assert_eq!(range, 0x1000..0x1010);
    assert!(reg.next().is_none());

    let (c_y, v_y) = &regs[1];
    assert_eq!((c_y.address, c_y.size), (2, 1));
    let mut reg = dtb_walker::Reg::new(
        v_y.as_slice(),
        RegCfg { address_cells: c_y.address, size_cells: c_y.size },
    )
    .unwrap();
    let range = reg.next().unwrap();
    assert_eq!(range, 0x4000_0000..0x4800_0000);
    assert!(reg.next().is_none());
}

/// Captures decoded `reg` ranges as the walker hands them out.
struct RegProbe {
    ranges: Vec<std::ops::Range<u64>>,
}

impl ContextMeta for RegProbe {
    fn visit_node(&mut self, _ctx: &Context<'_>, _name: Str<'_>) -> WalkOperation<Self> {
        WalkOperation::Access(RegProbe { ranges: Vec::new() })
    }

    fn visit_prop(&mut self, _ctx: &Context<'_>, prop: Property<'_>) -> SkipType {
        if let Property::Reg(mut reg) = prop {
            while let Some(range) = reg.next() {
                self.ranges.push(range);
            }
        }
        SkipType::StepOver
    }

    fn merge(&mut self, child: Self) {
        self.ranges.extend(child.ranges);
    }
}

#[test]
fn walk_decodes_reg_with_parent_cells() {
    let mut s = Vec::new();
    begin(&mut s, "");
    begin(&mut s, "mem");
    prop(&mut s, "reg", &cells(&[0x0000_0000, 0x4000_0000, 0x0800_0000]));
    end_node(&mut s);
    end_node(&mut s);
    tok(&mut s, 9);
    let blob = assemble(&s);
    let d = Dtb::from_slice(&blob).unwrap();
    let out = d.walk(RegProbe { ranges: Vec::new() }).0.unwrap();
    assert_eq!(out.ranges, vec![0x4000_0000..0x4800_0000]);
}

#[test]
fn walk_path_formatting_through_context() {
    // At the property of /abc/defgh the rendered path needs ten bytes: a
    // four-byte buffer reports truncation carrying exactly 4.
    struct PathProbe;

    impl ContextMeta for PathProbe {
        fn visit_node(&mut self, _ctx: &Context<'_>, _name: Str<'_>) -> WalkOperation<Self> {
            WalkOperation::Access(PathProbe)
        }

        fn visit_prop(&mut self, ctx: &Context<'_>, _prop: Property<'_>) -> SkipType {
            let mut small = [0u8; 4];
            assert_eq!(ctx.fmt_path(&mut small), Err(4));
            assert_eq!(&small, b"/abc");
            let mut big = [0u8; 16];
            assert_eq!(ctx.fmt_path(&mut big), Ok(10));
            assert_eq!(&big[..10], b"/abc/defgh");
            assert!(!ctx.is_root());
            assert_eq!(ctx.level(), 2);
            assert_eq!(ctx.name().as_bytes(), b"defgh");
            SkipType::StepOver
        }
    }

    let mut s = Vec::new();
    begin(&mut s, "");
    begin(&mut s, "abc");
    begin(&mut s, "defgh");
    prop(&mut s, "status", b"okay\0");
    end_node(&mut s);
    end_node(&mut s);
    end_node(&mut s);
    tok(&mut s, 9);
    let blob = assemble(&s);
    let d = Dtb::from_slice(&blob).unwrap();
    assert!(d.walk(PathProbe).0.is_ok());
}

#[test]
fn walk_ignores_nop_tokens() {
    let mut s = Vec::new();
    begin(&mut s, "");
    tok(&mut s, 4);
    begin(&mut s, "n");
    tok(&mut s, 4);
    end_node(&mut s);
    tok(&mut s, 4);
    end_node(&mut s);
    tok(&mut s, 9);
    let blob = assemble(&s);
    let d = Dtb::from_slice(&blob).unwrap();
    let out = d.walk(Recorder { log: Vec::new() }).0.unwrap();
    assert_eq!(out.log, vec!["node n @0"]);
}

#[test]
fn walk_deep_nesting_levels() {
    let mut s = Vec::new();
    begin(&mut s, "");
    for name in ["d0", "d1", "d2", "d3", "d4"] {
        begin(&mut s, name);
    }
    prop(&mut s, "status", b"okay\0");
    for _ in 0..5 {
        end_node(&mut s);
    }
    end_node(&mut s);
    tok(&mut s, 9);
    let blob = assemble(&s);
    let d = Dtb::from_slice(&blob).unwrap();
    let out = d.walk(Recorder { log: Vec::new() }).0.unwrap();
    assert_eq!(
        out.log,
        vec![
            "node d0 @0",
            "node d1 @1",
            "node d2 @2",
            "node d3 @3",
            "node d4 @4",
            "prop status @5",
        ]
    );
}

#[test]
fn walk_cells_update_applies_to_later_children_only() {
    // The override root declares after `early` reaches only `late`: each
    // child's reg is decoded with the configuration in force at its entry.
    let mut s = Vec::new();
    begin(&mut s, "");
    begin(&mut s, "early");
    prop(&mut s, "reg", &cells(&[0, 0x10, 0x1]));
    end_node(&mut s);
    prop(&mut s, "#address-cells", &cells(&[1]));
    prop(&mut s, "#size-cells", &cells(&[1]));
    begin(&mut s, "late");
    prop(&mut s, "reg", &cells(&[0x20, 0x2]));
    end_node(&mut s);
    end_node(&mut s);
    tok(&mut s, 9);
    let blob = assemble(&s);
    let d = Dtb::from_slice(&blob).unwrap();
    let out = d.walk(RegProbe { ranges: Vec::new() }).0.unwrap();
    assert_eq!(out.ranges, vec![0x10..0x11, 0x20..0x22]);
}

#[test]
fn walk_unexpected_token_is_fatal() {
    let mut s = Vec::new();
    begin(&mut s, "");
    tok(&mut s, 7);
    end_node(&mut s);
    tok(&mut s, 9);
    let blob = assemble(&s);
    let d = Dtb::from_slice(&blob).unwrap();
    match d.walk(Recorder { log: Vec::new() }).0 {
        Err(e) => assert_eq!(e, StructureError::UnexpectedToken { offset: 8, token: 7 }),
        Ok(_) => panic!("walk accepted a corrupt stream"),
    }
    assert_eq!(
        d.events(),
        Err(StructureError::UnexpectedToken { offset: 8, token: 7 })
    );
}

#[test]
fn walk_bad_cell_count_is_fatal() {
    let mut s = Vec::new();
    begin(&mut s, "");
    prop(&mut s, "#address-cells", &cells(&[1, 2]));
    end_node(&mut s);
    tok(&mut s, 9);
    let blob = assemble(&s);
    let d = Dtb::from_slice(&blob).unwrap();
    assert_eq!(
        d.events(),
        Err(StructureError::InvalidCellCount { offset: 8, length: 8 })
    );
}

#[test]
fn walk_interrupt_cells_mismatch_degrades() {
    // A `#interrupt-cells` value of the wrong width is not fatal: it is
    // reported as an ordinary property instead of updating anything.
    let mut s = Vec::new();
    begin(&mut s, "");
    prop(&mut s, "#interrupt-cells", &cells(&[1, 2]));
    end_node(&mut s);
    tok(&mut s, 9);
    let blob = assemble(&s);
    let d = Dtb::from_slice(&blob).unwrap();
    let out = d.walk(Recorder { log: Vec::new() }).0.unwrap();
    assert_eq!(out.log, vec!["prop #interrupt-cells @0"]);
}

#[test]
fn walk_bad_property_name_is_fatal() {
    let mut s = Vec::new();
    begin(&mut s, "");
    tok(&mut s, 3);
    tok(&mut s, 0);
    tok(&mut s, 9999);
    end_node(&mut s);
    tok(&mut s, 9);
    let blob = assemble(&s);
    let d = Dtb::from_slice(&blob).unwrap();
    assert_eq!(
        d.events(),
        Err(StructureError::PropertyName { nameoff: 9999 })
    );
}

#[test]
fn walk_truncated_value_is_fatal() {
    let mut s = Vec::new();
    begin(&mut s, "");
    tok(&mut s, 3);
    tok(&mut s, 0xffff);
    tok(&mut s, 0);
    end_node(&mut s);
    tok(&mut s, 9);
    let blob = assemble(&s);
    let d = Dtb::from_slice(&blob).unwrap();
    assert_eq!(d.events(), Err(StructureError::Truncated { offset: 8 }));
}

#[test]
fn walk_layout_error_on_unvalidated_blob() {
    // A structure section too small for its bookends is caught even when
    // validation was skipped at construction.
    let mut blob = tree_blob();
    blob[36..40].copy_from_slice(&8u32.to_be_bytes());
    let d = Dtb::from_slice_unchecked(&blob).unwrap();
    match d.walk(Lazy).0 {
        Err(e) => assert_eq!(e, StructureError::Layout),
        Ok(_) => panic!("walk accepted a bad layout"),
    }
    assert_eq!(d.events(), Err(StructureError::Layout));
}
