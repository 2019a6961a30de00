use kicad_cdb::symgen::{
    classify_pin, compute_layout, generate_lib_table_entry, generate_sym_lib_table, infer_electrical_type_from_name,
    infer_ref_prefix, is_ground_pin, is_supply_pin, ElectricalType, LayoutPin, PinClass, SymbolPinInfo,
};

#[test]
fn ground_and_supply_names() {
    assert!(is_ground_pin("GND"));
    assert!(is_ground_pin("agnd"));
    assert!(is_ground_pin("GND_PAD"));
    assert!(is_ground_pin("ChassisGround"));
    assert!(!is_ground_pin("SIG"));
    assert!(is_supply_pin("vcc"));
    assert!(is_supply_pin("VDDIO"));
    assert!(is_supply_pin("VCC3V3"));
    assert!(is_supply_pin("VBUS"));
    assert!(!is_supply_pin("V5"));
    assert!(!is_supply_pin("GND"));
}

#[test]
fn pin_classes() {
    assert_eq!(classify_pin("GND", None), PinClass::PowerBottom);
    assert_eq!(classify_pin("vdd", Some("input")), PinClass::PowerTop);
    assert_eq!(classify_pin("Q", Some("output")), PinClass::Right);
    assert_eq!(classify_pin("Q", Some("open_collector")), PinClass::Right);
    assert_eq!(classify_pin("SW", Some("input")), PinClass::Left);
    assert_eq!(classify_pin("clk", Some("clock")), PinClass::Left);
    assert_eq!(classify_pin("sw", None), PinClass::Right);
    assert_eq!(classify_pin("TXD", Some("bidirectional")), PinClass::Right);
    assert_eq!(classify_pin("OUT1", None), PinClass::Right);
    assert_eq!(classify_pin("EN", None), PinClass::Left);
    assert_eq!(classify_pin("NC", None), PinClass::Left);
}

#[test]
fn reference_prefixes() {
    assert_eq!(infer_ref_prefix("RC0402FR-0710KL"), "R");
    assert_eq!(infer_ref_prefix("RT9013"), "U");
    assert_eq!(infer_ref_prefix("REG1117"), "U");
    assert_eq!(infer_ref_prefix("cl10a106"), "C");
    assert_eq!(infer_ref_prefix("CONN-2"), "U");
    assert_eq!(infer_ref_prefix("LQH32"), "L");
    assert_eq!(infer_ref_prefix("LED-0603"), "D");
    assert_eq!(infer_ref_prefix("LM317"), "U");
    assert_eq!(infer_ref_prefix("D1N4148"), "D");
    assert_eq!(infer_ref_prefix("DIP8"), "U");
    assert_eq!(infer_ref_prefix("STM32F103"), "U");
}

#[test]
fn electrical_types_from_names() {
    assert_eq!(infer_electrical_type_from_name("vcc"), ElectricalType::PowerIn);
    assert_eq!(infer_electrical_type_from_name("3V3"), ElectricalType::PowerIn);
    assert_eq!(infer_electrical_type_from_name("EP"), ElectricalType::PowerIn);
    assert_eq!(infer_electrical_type_from_name("mosi"), ElectricalType::Output);
    assert_eq!(infer_electrical_type_from_name("RXD"), ElectricalType::Input);
    assert_eq!(infer_electrical_type_from_name("GPIO4"), ElectricalType::Bidirectional);
    assert_eq!(infer_electrical_type_from_name("n/c"), ElectricalType::NoConnect);
    assert_eq!(infer_electrical_type_from_name("FB"), ElectricalType::Passive);
}

#[test]
fn lib_table_text() {
    assert_eq!(
        generate_lib_table_entry("custom", "${KIPRJMOD}/custom.kicad_sym"),
        "(lib (name \"custom\")(type \"KiCad\")(uri \"${KIPRJMOD}/custom.kicad_sym\")(options \"\")(descr \"\"))\n"
    );
    let t = generate_sym_lib_table(&[("a", "a.kicad_sym"), ("b", "/x/b.kicad_sym")]);
    assert_eq!(
        t,
        "(sym_lib_table\n(lib (name \"a\")(type \"KiCad\")(uri \"a.kicad_sym\")(options \"\")(descr \"\"))\n(lib (name \"b\")(type \"KiCad\")(uri \"/x/b.kicad_sym\")(options \"\")(descr \"\"))\n)\n"
    );
    assert_eq!(generate_sym_lib_table(&[]), "(sym_lib_table\n)\n");
}

fn pin(name: &str, et: Option<&str>) -> SymbolPinInfo {
    SymbolPinInfo { pin_name: name.to_string(), electrical_type: et.map(|s| s.to_string()) }
}

fn lp(index: usize, x: i64, y: i64, rotation: u32) -> LayoutPin {
    LayoutPin { index, x, y, rotation }
}

#[test]
fn layout_places_pins_on_their_sides() {
    // Positions are in units of 1.27 mm: left column at x = -4 (-5.08 mm), right at 4.
    let pins = vec![pin("IN", Some("input")), pin("OUT", Some("output")), pin("VCC", None), pin("GND", None), pin("EN", None)];
    let l = compute_layout(&pins);
    assert_eq!(l.body_width, 4);
    assert_eq!(l.body_height, 4);
    assert_eq!(
        l.pins,
        vec![lp(0, -4, 2, 0), lp(4, -4, 0, 0), lp(1, 4, 2, 180), lp(2, 0, 4, 90), lp(3, 0, -4, 270)]
    );
}

#[test]
fn layout_splits_power_only_and_left_only_symbols() {
    let l = compute_layout(&[pin("VCC", None), pin("GND", None), pin("VDD", None)]);
    assert_eq!(l.body_height, 4);
    assert_eq!(l.pins, vec![lp(0, -4, 2, 0), lp(1, 4, 2, 180), lp(2, 4, 0, 180)]);
    let l = compute_layout(&[pin("A", None), pin("B", None), pin("C", None)]);
    assert_eq!(l.pins, vec![lp(0, -4, 2, 0), lp(1, 4, 2, 180), lp(2, 4, 0, 180)]);
    let l = compute_layout(&[]);
    assert_eq!(l.body_height, 2);
    assert!(l.pins.is_empty());
}

#[test]
fn layout_rows_are_centred() {
    let l = compute_layout(&[pin("A", None), pin("Y", Some("output")), pin("VCC", None), pin("VDD", None), pin("VCCA", None)]);
    assert_eq!(
        l.pins,
        vec![lp(0, -4, 1, 0), lp(1, 4, 1, 180), lp(2, -2, 3, 90), lp(3, 0, 3, 90), lp(4, 2, 3, 90)]
    );
}
